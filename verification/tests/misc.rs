use libkernel::debug::logger::{_is_enabled, _override_log_levels, ends_with, level_enabled};
use libkernel::debug::Level;
use libkernel::device::{make_addr_range, RequestId, RequestStatus, Sector};
use libkernel::handler::init;
use libkernel::log::LogLevel;
use libkernel::pager::{Addr, AddrRange, PhysAddr};
use libkernel::util::bitfield::{Bitfield, Field};
use libkernel::{Error, Result};

#[test]
fn logging() {
    for level in [
        Level::Trace,
        Level::Debug,
        Level::Info,
        Level::Warn,
        Level::Major,
        Level::Error,
        Level::Fatal,
    ] {
        let name: &str = level.into();
        println!("{} {}", name, _is_enabled(level, "libkernel::debug"));
    }
}

#[test]
fn level_names() {
    assert_eq!("TRACE", Level::Trace.into());
    assert_eq!("MAJOR", Level::Major.into());
    assert_eq!("FATAL", Level::Fatal.into());
    assert_eq!("ERROR", LogLevel::Error.label());
    assert_eq!("WARN ", LogLevel::Warn.label());
    assert_eq!(1, LogLevel::Error.value());
    assert_eq!(5, LogLevel::Trace.value());
}

#[test]
fn log_levels_by_module() {
    let (default_level, settings) = _override_log_levels();
    assert_eq!(Level::Major, default_level);
    assert_eq!(1, settings.len());
    // the default lets through majors and above
    assert!(!_is_enabled(Level::Info, "libkernel::pager::frames"));
    assert!(_is_enabled(Level::Major, "libkernel::pager::frames"));
    // the pager of aarch64 lets through info and above
    assert!(_is_enabled(Level::Info, "libkernel::archs::aarch64::pager"));
    assert!(!_is_enabled(Level::Debug, "libkernel::archs::aarch64::pager"));
    // the last matching setting decides
    let settings = [("pager", Level::Trace), ("aarch64::pager", Level::Error)];
    assert!(!level_enabled(Level::Warn, "archs::aarch64::pager", Level::Info, &settings));
    assert!(level_enabled(Level::Trace, "pager", Level::Info, &settings));
    assert!(level_enabled(Level::Info, "walk", Level::Info, &settings));
}

#[test]
fn suffixes() {
    assert!(ends_with("libkernel::pager", "pager"));
    assert!(ends_with("pager", ""));
    assert!(!ends_with("pager", "libkernel::pager"));
    assert!(!ends_with("libkernel::pager", "page"));
}

#[test]
fn can_call_on_test_arch() {}

#[test]
fn can_call_test_arch() {
    init().expect("init");
}

#[test]
fn reg_property_ranges() {
    let range = make_addr_range(&[0, 0x4000_0000, 0, 0x800_0000]).unwrap();
    assert_eq!(PhysAddr::at(0x4000_0000), range.base());
    assert_eq!(0x800_0000, range.length());
    let range = make_addr_range(&[1, 2, 3, 4]).unwrap();
    assert_eq!(PhysAddr::at(0x1_0000_0002), range.base());
    assert_eq!(0x3_0000_0004, range.length());
    assert_eq!(Err(Error::DeviceIncompatible), make_addr_range(&[1, 2, 3]));
}

#[test]
fn block_vocabulary() {
    assert_eq!(0, RequestStatus::Done.code());
    assert_eq!(0xff, RequestStatus::Init.code());
    assert!(RequestId(1) < RequestId(2));
    assert_eq!(Sector(7), Sector(7));
}

#[test]
fn it_works() {
    let mut v = Bitfield::new(0u64);
    let flag1 = Field::new(1, 0);
    let field1 = Field::new(3, 1);
    v.write(flag1.set().plus(field1.val(1)));
    assert_eq!(v.get(), 0x3);
}

#[test]
fn debug_error() {
    println!("{:?}", Error::UnknownError);
}

#[test]
fn return_error() {
    fn fn_ok() -> Result<f64> {
        Ok(1.0)
    }

    fn fn_error() -> Result<f64> {
        Err(Error::UnknownError)
    }

    fn fn_qmark() -> Result<f64> {
        fn_error()?;
        Ok(1.0)
    }

    assert_eq!(fn_ok(), Ok(1.0));
    assert!(fn_error().is_err());
    assert!(fn_qmark().is_err());
}
