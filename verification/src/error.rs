//! The errors of the library.

use vstd::prelude::*;

use crate::numbers::ParseIntError;
use crate::text;

verus! {

/// `std::io::Error`, carried as it is.
#[verifier::external_type_specification]
#[verifier::external_body]
pub struct ExIoError(std::io::Error);

/// `std::str::Utf8Error`, carried as it is.
#[verifier::external_type_specification]
#[verifier::external_body]
pub struct ExUtf8Error(std::str::Utf8Error);

/// `walkdir::Error`, carried as it is.
#[verifier::external_type_specification]
#[verifier::external_body]
pub struct ExWalkDirError(walkdir::Error);

/// What can go wrong between the library and a device.
#[derive(Debug)]
pub enum DeviceError {
    /// The adb server or the device refused a request, or answered out of turn.
    Adb(String),
    /// A length does not fit where it has to be written.
    FromInt(std::num::TryFromIntError),
    /// The name of a storage is not known.
    InvalidStorage,
    /// Reading, writing or connecting failed.
    Io(std::io::Error),
    /// A command is to run as a package, and no package is set.
    MissingPackage,
    /// More than one device is online, and none was chosen.
    MultipleDevices,
    /// A text is not a number.
    ParseInt(ParseIntError),
    /// The chosen device is not online.
    UnknownDevice(String),
    /// Bytes are not UTF-8.
    Utf8(std::str::Utf8Error),
    /// Walking a local directory failed.
    WalkDir(walkdir::Error),
}

/// What an error says. Of the errors of other libraries the one for bytes that
/// are not UTF-8 is kept; the others are left out.
pub enum ErrorView {
    Adb(Seq<char>),
    FromInt,
    InvalidStorage,
    Io,
    MissingPackage,
    MultipleDevices,
    ParseInt(ParseIntError),
    UnknownDevice(Seq<char>),
    Utf8(std::str::Utf8Error),
    WalkDir,
}

impl View for DeviceError {
    type V = ErrorView;

    open spec fn view(&self) -> ErrorView {
        match *self {
            DeviceError::Adb(text) => ErrorView::Adb(text@),
            DeviceError::FromInt(_) => ErrorView::FromInt,
            DeviceError::InvalidStorage => ErrorView::InvalidStorage,
            DeviceError::Io(_) => ErrorView::Io,
            DeviceError::MissingPackage => ErrorView::MissingPackage,
            DeviceError::MultipleDevices => ErrorView::MultipleDevices,
            DeviceError::ParseInt(e) => ErrorView::ParseInt(e),
            DeviceError::UnknownDevice(serial) => ErrorView::UnknownDevice(serial@),
            DeviceError::Utf8(e) => ErrorView::Utf8(e),
            DeviceError::WalkDir(_) => ErrorView::WalkDir,
        }
    }
}

/// A result seen through the views of its value and of its error.
pub type Outcome<V> = std::result::Result<V, ErrorView>;

/// The outcome that a result stands for.
pub open spec fn outcome<T: View>(r: Result<T>) -> Outcome<T::V> {
    match r {
        Ok(v) => Ok(v@),
        Err(e) => Err(e@),
    }
}

/// The result of an operation on a device.
pub type Result<T> = std::result::Result<T, DeviceError>;

impl DeviceError {
    /// The error in words. An error that wraps another one reads as that one.
    pub fn message(&self) -> (r: String)
        ensures
            match *self {
                DeviceError::Adb(text) => r@ == text@,
                DeviceError::FromInt(e) => vstd::string::to_string_from_display_ensures(&e, r),
                DeviceError::InvalidStorage => r@ == "Invalid storage"@,
                DeviceError::Io(e) => vstd::string::to_string_from_display_ensures(&e, r),
                DeviceError::MissingPackage => r@ == "Missing package"@,
                DeviceError::MultipleDevices => r@ == "Multiple Android devices online"@,
                DeviceError::ParseInt(e) => r@ == e.spec_message(),
                DeviceError::UnknownDevice(serial) => r@ == "Unknown Android device with serial '"@
                    + serial@ + "'"@,
                DeviceError::Utf8(e) => vstd::string::to_string_from_display_ensures(&e, r),
                DeviceError::WalkDir(e) => vstd::string::to_string_from_display_ensures(&e, r),
            },
    {
        match self {
            DeviceError::Adb(text) => text.clone(),
            DeviceError::FromInt(e) => e.to_string(),
            DeviceError::InvalidStorage => "Invalid storage".to_owned(),
            DeviceError::Io(e) => e.to_string(),
            DeviceError::MissingPackage => "Missing package".to_owned(),
            DeviceError::MultipleDevices => "Multiple Android devices online".to_owned(),
            DeviceError::ParseInt(e) => e.message(),
            DeviceError::UnknownDevice(serial) => text::concat3(
                "Unknown Android device with serial '",
                serial.as_str(),
                "'",
            ),
            DeviceError::Utf8(e) => e.to_string(),
            DeviceError::WalkDir(e) => e.to_string(),
        }
    }
}

} // verus!
