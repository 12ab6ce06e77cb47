//! Names and codes of the Android Debug Bridge protocol.

use vstd::prelude::*;

verus! {

/// The serial number that identifies a device.
pub type DeviceSerial = String;

/// The four-letter words of the file synchronisation protocol.
#[derive(Debug, Clone, Copy, PartialEq, Eq, Structural)]
pub enum SyncCommand {
    Data,
    Dent,
    Done,
    Fail,
    List,
    Okay,
    Recv,
    Send,
}

impl SyncCommand {
    /// The ASCII letters of the word.
    pub open spec fn bytes(self) -> Seq<u8> {
        match self {
            SyncCommand::Data => seq![0x44u8, 0x41, 0x54, 0x41],
            SyncCommand::Dent => seq![0x44u8, 0x45, 0x4e, 0x54],
            SyncCommand::Done => seq![0x44u8, 0x4f, 0x4e, 0x45],
            SyncCommand::Fail => seq![0x46u8, 0x41, 0x49, 0x4c],
            SyncCommand::List => seq![0x4cu8, 0x49, 0x53, 0x54],
            SyncCommand::Okay => seq![0x4fu8, 0x4b, 0x41, 0x59],
            SyncCommand::Recv => seq![0x52u8, 0x45, 0x43, 0x56],
            SyncCommand::Send => seq![0x53u8, 0x45, 0x4e, 0x44],
        }
    }

    /// The word as it goes over the wire.
    pub fn code(&self) -> (r: [u8; 4])
        ensures
            r@ == self.bytes(),
    {
        let r: [u8; 4] = match self {
            SyncCommand::Data => [0x44, 0x41, 0x54, 0x41],
            SyncCommand::Dent => [0x44, 0x45, 0x4e, 0x54],
            SyncCommand::Done => [0x44, 0x4f, 0x4e, 0x45],
            SyncCommand::Fail => [0x46, 0x41, 0x49, 0x4c],
            SyncCommand::List => [0x4c, 0x49, 0x53, 0x54],
            SyncCommand::Okay => [0x4f, 0x4b, 0x41, 0x59],
            SyncCommand::Recv => [0x52, 0x45, 0x43, 0x56],
            SyncCommand::Send => [0x53, 0x45, 0x4e, 0x44],
        };
        assert(r@ =~= self.bytes());
        r
    }

    /// Whether `bytes` begins with this word.
    pub fn leads(&self, bytes: &Vec<u8>) -> (r: bool)
        ensures
            r == self.bytes().is_prefix_of(bytes@),
    {
        if bytes.len() < 4 {
            return false;
        }
        let code: [u8; 4] = self.code();
        let r: bool = bytes[0] == code[0] && bytes[1] == code[1] && bytes[2] == code[2] && bytes[3]
            == code[3];
        assert(r ==> self.bytes() =~= bytes@.subrange(0, 4));
        assert(!r ==> self.bytes() != bytes@.subrange(0, 4)) by {
            assert(bytes@.subrange(0, 4)[0] == bytes@[0]);
            assert(bytes@.subrange(0, 4)[1] == bytes@[1]);
            assert(bytes@.subrange(0, 4)[2] == bytes@[2]);
            assert(bytes@.subrange(0, 4)[3] == bytes@[3]);
        }
        r
    }
}

/// The words are four ASCII letters each, as they read.
pub proof fn law_words_read_as_they_are_named()
    ensures
        SyncCommand::Data.bytes() == "DATA"@.map_values(|c: char| c as u8),
        SyncCommand::Dent.bytes() == "DENT"@.map_values(|c: char| c as u8),
        SyncCommand::Done.bytes() == "DONE"@.map_values(|c: char| c as u8),
        SyncCommand::Fail.bytes() == "FAIL"@.map_values(|c: char| c as u8),
        SyncCommand::List.bytes() == "LIST"@.map_values(|c: char| c as u8),
        SyncCommand::Okay.bytes() == "OKAY"@.map_values(|c: char| c as u8),
        SyncCommand::Recv.bytes() == "RECV"@.map_values(|c: char| c as u8),
        SyncCommand::Send.bytes() == "SEND"@.map_values(|c: char| c as u8),
{
    reveal_strlit("DATA");
    reveal_strlit("DENT");
    reveal_strlit("DONE");
    reveal_strlit("FAIL");
    reveal_strlit("LIST");
    reveal_strlit("OKAY");
    reveal_strlit("RECV");
    reveal_strlit("SEND");
    assert(SyncCommand::Data.bytes() =~= "DATA"@.map_values(|c: char| c as u8));
    assert(SyncCommand::Dent.bytes() =~= "DENT"@.map_values(|c: char| c as u8));
    assert(SyncCommand::Done.bytes() =~= "DONE"@.map_values(|c: char| c as u8));
    assert(SyncCommand::Fail.bytes() =~= "FAIL"@.map_values(|c: char| c as u8));
    assert(SyncCommand::List.bytes() =~= "LIST"@.map_values(|c: char| c as u8));
    assert(SyncCommand::Okay.bytes() =~= "OKAY"@.map_values(|c: char| c as u8));
    assert(SyncCommand::Recv.bytes() =~= "RECV"@.map_values(|c: char| c as u8));
    assert(SyncCommand::Send.bytes() =~= "SEND"@.map_values(|c: char| c as u8));
}

} // verus!
