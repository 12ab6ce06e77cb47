//! Where on a device the files of a session are kept.

use vstd::prelude::*;

use crate::error::{DeviceError, ErrorView, Result};
use crate::text;

verus! {

/// The storage that was asked for.
#[derive(Debug, Clone, Copy, PartialEq, Eq, Structural)]
pub enum AndroidStorageInput {
    Auto,
    App,
    Internal,
    Sdcard,
}

/// The storage in use.
#[derive(Debug, Clone, Copy, PartialEq, Eq, Structural)]
pub enum AndroidStorage {
    App,
    Internal,
    Sdcard,
}

impl Default for AndroidStorageInput {
    fn default() -> (r: AndroidStorageInput)
        ensures
            r == AndroidStorageInput::Auto,
    {
        AndroidStorageInput::Auto
    }
}

/// The storage that a name stands for.
pub open spec fn storage_named(name: Seq<char>) -> Option<AndroidStorageInput> {
    if name == "auto"@ {
        Some(AndroidStorageInput::Auto)
    } else if name == "app"@ {
        Some(AndroidStorageInput::App)
    } else if name == "internal"@ {
        Some(AndroidStorageInput::Internal)
    } else if name == "sdcard"@ {
        Some(AndroidStorageInput::Sdcard)
    } else {
        None
    }
}

impl AndroidStorageInput {
    /// The storage in use when this one is asked for.
    pub open spec fn in_use(self) -> AndroidStorage {
        match self {
            AndroidStorageInput::App => AndroidStorage::App,
            AndroidStorageInput::Internal => AndroidStorage::Internal,
            AndroidStorageInput::Sdcard => AndroidStorage::Sdcard,
            AndroidStorageInput::Auto => AndroidStorage::Sdcard,
        }
    }

    /// Decides the storage in use; left to itself it is the SD card.
    pub fn resolve(self) -> (r: AndroidStorage)
        ensures
            r == self.in_use(),
    {
        match self {
            AndroidStorageInput::App => AndroidStorage::App,
            AndroidStorageInput::Internal => AndroidStorage::Internal,
            AndroidStorageInput::Sdcard => AndroidStorage::Sdcard,
            AndroidStorageInput::Auto => AndroidStorage::Sdcard,
        }
    }

    /// The storage with the given name.
    pub fn parse(s: &str) -> (r: Result<AndroidStorageInput>)
        ensures
            match r {
                Ok(storage) => storage_named(s@) == Some(storage),
                Err(e) => storage_named(s@) is None && e@ == ErrorView::InvalidStorage,
            },
    {
        proof {
            reveal_strlit("auto");
            reveal_strlit("app");
            reveal_strlit("internal");
            reveal_strlit("sdcard");
        }
        if text::str_eq(s, "auto") {
            Ok(AndroidStorageInput::Auto)
        } else if text::str_eq(s, "app") {
            Ok(AndroidStorageInput::App)
        } else if text::str_eq(s, "internal") {
            Ok(AndroidStorageInput::Internal)
        } else if text::str_eq(s, "sdcard") {
            Ok(AndroidStorageInput::Sdcard)
        } else {
            Err(DeviceError::InvalidStorage)
        }
    }
}

impl std::str::FromStr for AndroidStorageInput {
    type Err = DeviceError;

    /// The same as [`AndroidStorageInput::parse`].
    fn from_str(s: &str) -> (r: Result<AndroidStorageInput>)
        ensures
            match r {
                Ok(storage) => storage_named(s@) == Some(storage),
                Err(e) => storage_named(s@) is None && e@ == ErrorView::InvalidStorage,
            },
    {
        AndroidStorageInput::parse(s)
    }
}

// Laws

/// Each storage has one name, and nothing else is the name of a storage; what is
/// asked for is what is used, and the SD card is used where nothing is.
pub proof fn law_storages_and_their_names(name: Seq<char>, storage: AndroidStorageInput)
    ensures
        storage_named(name) == Some(storage) <==> name == (match storage {
            AndroidStorageInput::Auto => seq!['a', 'u', 't', 'o'],
            AndroidStorageInput::App => seq!['a', 'p', 'p'],
            AndroidStorageInput::Internal => seq!['i', 'n', 't', 'e', 'r', 'n', 'a', 'l'],
            AndroidStorageInput::Sdcard => seq!['s', 'd', 'c', 'a', 'r', 'd'],
        }),
        storage.in_use() is App <==> storage is App,
        storage.in_use() is Internal <==> storage is Internal,
        storage.in_use() is Sdcard <==> storage is Sdcard || storage is Auto,
{
    reveal_strlit("auto");
    reveal_strlit("app");
    reveal_strlit("internal");
    reveal_strlit("sdcard");
    let auto = seq!['a', 'u', 't', 'o'];
    let app = seq!['a', 'p', 'p'];
    let internal = seq!['i', 'n', 't', 'e', 'r', 'n', 'a', 'l'];
    let sdcard = seq!['s', 'd', 'c', 'a', 'r', 'd'];
    assert("auto"@ =~= auto);
    assert("app"@ =~= app);
    assert("internal"@ =~= internal);
    assert("sdcard"@ =~= sdcard);
    assert(auto.len() == 4 && app.len() == 3 && internal.len() == 8 && sdcard.len() == 6);
}

} // verus!
