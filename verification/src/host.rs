//! The adb server, and the devices that it knows.

use vstd::prelude::*;

use crate::adb::DeviceSerial;
use crate::device::Device;
use crate::error;
use crate::error::{DeviceError, ErrorView, Outcome, Result};
use crate::exchange;
use crate::exchange::Exchange;
use crate::info::InfoMap;
use crate::numbers;
use crate::storage::AndroidStorageInput;
use crate::text;
use crate::text::Separator;
use crate::wire;

verus! {

/// Detailed information about a device.
#[derive(Debug, Clone, PartialEq, Eq, PartialOrd, Ord)]
pub struct DeviceInfo {
    pub serial: DeviceSerial,
    pub info: InfoMap,
}

/// What is known about a device.
pub struct DeviceInfoView {
    pub serial: Seq<char>,
    pub info: Map<Seq<char>, Seq<char>>,
}

impl View for DeviceInfo {
    type V = DeviceInfoView;

    open spec fn view(&self) -> DeviceInfoView {
        DeviceInfoView { serial: self.serial@, info: self.info@ }
    }
}

/// What is known about each device of a list.
pub open spec fn infos_view(v: Seq<DeviceInfo>) -> Seq<DeviceInfoView> {
    v.map_values(|d: DeviceInfo| d@)
}

/// The properties among the words of a line: those that are a key and a value
/// with one colon between them. Of two values for a key the later one counts.
pub open spec fn properties(words: Seq<Seq<char>>) -> Map<Seq<char>, Seq<char>>
    decreases words.len(),
{
    if words.len() == 0 {
        Map::empty()
    } else {
        let pair = text::split_text(words.last(), Separator::Char(':'));
        if pair.len() == 2 {
            properties(words.drop_last()).insert(pair[0], pair[1])
        } else {
            properties(words.drop_last())
        }
    }
}

/// The device that a line describes: its serial number, the word `device`, and
/// its properties. A line in any other state describes none.
pub open spec fn described_device(line: Seq<char>) -> Option<DeviceInfoView> {
    let words = text::words(line);
    if words.len() >= 2 && words[1] == "device"@ {
        Some(DeviceInfoView { serial: words[0], info: properties(words.skip(2)) })
    } else {
        None
    }
}

/// The devices that the lines describe, in order.
pub open spec fn described_devices(lines: Seq<Seq<char>>) -> Seq<DeviceInfoView>
    decreases lines.len(),
{
    if lines.len() == 0 {
        seq![]
    } else {
        match described_device(lines.last()) {
            Some(device) => described_devices(lines.drop_last()).push(device),
            None => described_devices(lines.drop_last()),
        }
    }
}

/// Turns "serial\tdevice key1:value1 key2:value2 ..." into a [`DeviceInfo`].
pub fn parse_device_info(line: &str) -> (r: Option<DeviceInfo>)
    ensures
        described_device(line@) == (match r {
            Some(device) => Some(device@),
            None => None,
        }),
{
    let words: Vec<String> = text::split_whitespace(line);
    let ghost all = text::strings_view(words@);
    if words.len() < 2 || !text::str_eq(words[1].as_str(), "device") {
        return None;
    }
    let ghost pairs = all.skip(2);
    let mut info: InfoMap = InfoMap::new();
    for i in 2..words.len()
        invariant
            words.len() >= 2,
            all == text::strings_view(words@),
            pairs == all.skip(2),
            info@ == properties(pairs.take(i - 2)),
    {
        let ghost before = info@;
        let pair: Vec<String> = text::split(words[i].as_str(), Separator::Char(':'));
        let ghost pieces = text::strings_view(pair@);
        assert(pairs.take(i - 1).drop_last() == pairs.take(i - 2));
        assert(pairs.take(i - 1).last() == words@[i as int]@);
        if pair.len() == 2 {
            let value: String = pair[1].clone();
            let key: String = pair[0].clone();
            assert(pieces[0] == key@ && pieces[1] == value@);
            info = info.with(key, value);
        }
        assert(info@ == properties(pairs.take(i - 1)));
    }
    assert(pairs.take(words.len() - 2) == pairs);
    let serial: String = words[0].clone();
    Some(DeviceInfo { serial, info })
}

/// The serial number of the device to use: the one that was asked for, where
/// it is online; and where none was asked for, the only one that is online.
pub open spec fn chosen_serial(online: Seq<Seq<char>>, wanted: Option<Seq<char>>) -> Outcome<
    Seq<char>,
> {
    match wanted {
        Some(serial) => if online.contains(serial) {
            Ok(serial)
        } else {
            Err(ErrorView::UnknownDevice(serial))
        },
        None => if online.len() > 1 {
            Err(ErrorView::MultipleDevices)
        } else if online.len() == 1 {
            Ok(online[0])
        } else {
            Err(ErrorView::Adb("No Android devices are online"@))
        },
    }
}

/// Chooses among the serial numbers of the devices that are online.
pub fn select_serial(online: &Vec<String>, wanted: Option<String>) -> (r: Result<String>)
    ensures
        error::outcome(r) == chosen_serial(
            text::strings_view(online@),
            match wanted {
                Some(serial) => Some(serial@),
                None => None,
            },
        ),
{
    match wanted {
        Some(serial) => {
            if !text::list_contains(online, serial.as_str()) {
                return Err(DeviceError::UnknownDevice(serial));
            }
            Ok(serial)
        },
        None => {
            if online.len() > 1 {
                return Err(DeviceError::MultipleDevices);
            }
            if online.len() == 1 {
                assert(text::strings_view(online@)[0] == online@[0]@);
                return Ok(online[0].clone());
            }
            Err(DeviceError::Adb("No Android devices are online".to_owned()))
        },
    }
}

/// A connection to an adb server, which multiplexes the connections to
/// individual devices.
#[derive(Debug, Clone, PartialEq)]
pub struct Host {
    /// The TCP host to connect to. Defaults to `"localhost"`.
    pub host: Option<String>,
    /// The TCP port to connect to. Defaults to `5037`.
    pub port: Option<u16>,
}

impl Default for Host {
    fn default() -> (r: Host)
        ensures
            r.host matches Some(host) && host@ == "localhost"@,
            r.port == Some(5037u16),
    {
        Host { host: Some("localhost".to_owned()), port: Some(5037) }
    }
}

impl Host {
    pub open spec fn host_name(self) -> Seq<char> {
        match self.host {
            Some(host) => host@,
            None => "localhost"@,
        }
    }

    pub open spec fn port_number(self) -> nat {
        match self.port {
            Some(port) => port as nat,
            None => 5037,
        }
    }

    /// The address to connect to.
    pub fn connect(&self) -> (r: String)
        ensures
            r@ == self.host_name() + ":"@ + numbers::decimal_text(self.port_number()),
    {
        let port: u16 = match self.port {
            Some(port) => port,
            None => 5037,
        };
        let digits: String = numbers::decimal(port as u64);
        match &self.host {
            Some(host) => text::concat3(host.as_str(), ":", digits.as_str()),
            None => text::concat3("localhost", ":", digits.as_str()),
        }
    }

    /// Hands a command to the server.
    pub fn execute_command(&self, command: &str, has_output: bool, has_length: bool) -> (r: Vec<
        Exchange,
    >)
        ensures
            exchange::script_view(r@) == exchange::request_script(command@, has_output, has_length),
    {
        exchange::server_exchanges(command, has_output, has_length)
    }

    /// Hands a host command to the server.
    pub fn execute_host_command(
        &self,
        host_command: &str,
        has_length: bool,
        has_output: bool,
    ) -> (r: Vec<Exchange>)
        ensures
            exchange::script_view(r@) == exchange::request_script(
                "host:"@ + host_command@,
                has_output,
                has_length,
            ),
    {
        let command: String = text::concat2("host:", host_command);
        self.execute_command(command.as_str(), has_output, has_length)
    }

    /// Asks the server for its features.
    pub fn features(&self) -> (r: Vec<Exchange>)
        ensures
            exchange::script_view(r@) == exchange::request_script("host:features"@, true, true),
    {
        proof {
            reveal_strlit("host:");
            reveal_strlit("features");
            reveal_strlit("host:features");
        }
        assert("host:"@ + "features"@ =~= "host:features"@);
        self.execute_host_command("features", true, true)
    }

    /// The features that the server answered with: names with commas between
    /// them.
    pub fn read_features(bytes: &Vec<u8>) -> (r: Result<Vec<String>>)
        ensures
            match r {
                Ok(features) => wire::utf8_outcome(bytes@) matches Ok(answer)
                    && text::strings_view(features@) == text::split_text(
                    answer,
                    Separator::Char(','),
                ),
                Err(e) => wire::utf8_outcome(bytes@) == Err::<Seq<char>, ErrorView>(e@),
            },
    {
        match wire::decode_text(bytes.as_slice()) {
            Ok(answer) => Ok(text::split(answer.as_str(), Separator::Char(','))),
            Err(e) => Err(e),
        }
    }

    /// Asks the server for the devices that it knows.
    pub fn devices(&self) -> (r: Vec<Exchange>)
        ensures
            exchange::script_view(r@) == exchange::request_script("host:devices-l"@, true, true),
    {
        proof {
            reveal_strlit("host:");
            reveal_strlit("devices-l");
            reveal_strlit("host:devices-l");
        }
        assert("host:"@ + "devices-l"@ =~= "host:devices-l"@);
        self.execute_host_command("devices-l", true, true)
    }

    /// The devices that the server answered with, one to a line.
    pub fn read_devices(bytes: &Vec<u8>) -> (r: Result<Vec<DeviceInfo>>)
        ensures
            match r {
                Ok(devices) => wire::utf8_outcome(bytes@) matches Ok(answer) && infos_view(devices@)
                    == described_devices(text::lines_of(answer)),
                Err(e) => wire::utf8_outcome(bytes@) == Err::<Seq<char>, ErrorView>(e@),
            },
    {
        let answer: String = match wire::decode_text(bytes.as_slice()) {
            Ok(answer) => answer,
            Err(e) => return Err(e),
        };
        let lines: Vec<String> = text::lines(answer.as_str());
        let ghost all = text::strings_view(lines@);
        let mut devices: Vec<DeviceInfo> = Vec::new();
        assert(infos_view(devices@) =~= described_devices(all.take(0)));
        for i in 0..lines.len()
            invariant
                all == text::strings_view(lines@),
                infos_view(devices@) == described_devices(all.take(i as int)),
        {
            let ghost before = infos_view(devices@);
            assert(all.take(i + 1).drop_last() == all.take(i as int));
            assert(all.take(i + 1).last() == lines@[i as int]@);
            match parse_device_info(lines[i].as_str()) {
                Some(device) => {
                    let ghost last = device@;
                    devices.push(device);
                    assert(infos_view(devices@) =~= before.push(last));
                },
                None => {},
            }
        }
        assert(all.take(all.len() as int) == all);
        Ok(devices)
    }

    /// Selects one of the devices that are online: the one with
    /// `device_serial`; where none is given, the one with `android_serial`
    /// (from the environment); and where that is not given either, the only
    /// one.
    pub fn device_or_default(
        self,
        devices: &Vec<DeviceInfo>,
        device_serial: Option<String>,
        android_serial: Option<String>,
        storage: AndroidStorageInput,
    ) -> (r: Result<Device>)
        ensures
            ({
                let wanted = match device_serial {
                    Some(serial) => Some(serial@),
                    None => match android_serial {
                        Some(serial) => Some(serial@),
                        None => None,
                    },
                };
                let online = infos_view(devices@).map_values(|d: DeviceInfoView| d.serial);
                match r {
                    Ok(device) => chosen_serial(online, wanted) == Ok::<Seq<char>, ErrorView>(
                        device.serial@,
                    ) && device.host == self && device.is_fresh(storage),
                    Err(e) => chosen_serial(online, wanted) == Err::<Seq<char>, ErrorView>(e@),
                }
            }),
    {
        let mut online: Vec<String> = Vec::new();
        let ghost all = infos_view(devices@).map_values(|d: DeviceInfoView| d.serial);
        for i in 0..devices.len()
            invariant
                all == infos_view(devices@).map_values(|d: DeviceInfoView| d.serial),
                text::strings_view(online@) == all.take(i as int),
        {
            let ghost before = text::strings_view(online@);
            let serial: String = devices[i].serial.clone();
            let ghost last = serial@;
            assert(all[i as int] == last);
            online.push(serial);
            assert(text::strings_view(online@) =~= before.push(last));
            assert(all.take(i + 1) =~= all.take(i as int).push(all[i as int]));
        }
        assert(all.take(all.len() as int) =~= all);
        let wanted: Option<String> = match device_serial {
            Some(serial) => Some(serial),
            None => android_serial,
        };
        match select_serial(&online, wanted) {
            Ok(serial) => Device::new(self, serial, storage),
            Err(e) => Err(e),
        }
    }
}

// Laws

/// The device that is selected is online, and it is the one that was asked for
/// where one was.
pub proof fn law_selected_device_is_online(online: Seq<Seq<char>>, wanted: Option<Seq<char>>)
    ensures
        match chosen_serial(online, wanted) {
            Ok(serial) => online.contains(serial) && (wanted is Some ==> wanted == Some(serial))
                && (wanted is None ==> online == seq![serial]),
            Err(_) => match wanted {
                Some(serial) => !online.contains(serial),
                None => online.len() != 1,
            },
        },
{
    if online.len() == 1 {
        assert(online =~= seq![online[0]]);
        assert(online.contains(online[0]));
    }
}

/// A line that lists a device: its serial number, the word `device`, and its
/// properties.
pub open spec fn device_line(serial: Seq<char>, pairs: Seq<(Seq<char>, Seq<char>)>) -> Seq<char>
    decreases pairs.len(),
{
    if pairs.len() == 0 {
        serial.push('\t') + "device"@
    } else {
        device_line(serial, pairs.drop_last()).push(' ') + (pairs.last().0.push(':')
            + pairs.last().1)
    }
}

/// The properties in order; of two values for a key the later one counts.
pub open spec fn collected(pairs: Seq<(Seq<char>, Seq<char>)>) -> Map<Seq<char>, Seq<char>>
    decreases pairs.len(),
{
    if pairs.len() == 0 {
        Map::empty()
    } else {
        collected(pairs.drop_last()).insert(pairs.last().0, pairs.last().1)
    }
}

/// A text that can be a key or a value.
pub open spec fn is_field(s: Seq<char>) -> bool {
    text::lacks(s, Separator::WhiteSpace) && text::lacks(s, Separator::Char(':'))
}

proof fn lemma_pair(key: Seq<char>, value: Seq<char>)
    requires
        is_field(key),
        is_field(value),
    ensures
        text::is_word(key.push(':') + value),
        text::split_text(key.push(':') + value, Separator::Char(':')) == seq![key, value],
{
    let pair = key.push(':') + value;
    text::lemma_split_join(key, ':', value, Separator::Char(':'));
    text::lemma_split_one(key, Separator::Char(':'));
    text::lemma_split_one(value, Separator::Char(':'));
    assert(seq![key] + seq![value] =~= seq![key, value]);
    assert forall|i: int| 0 <= i < pair.len() implies !text::is_white_space(#[trigger] pair[i]) by {
        if i < key.len() {
            assert(pair[i] == key[i]);
            assert(!Separator::WhiteSpace.separates(key[i]));
        } else if i == key.len() {
            assert(pair[i] == ':');
        } else {
            assert(pair[i] == value[i - key.len() - 1]);
            assert(!Separator::WhiteSpace.separates(value[i - key.len() - 1]));
        }
    }
}

proof fn lemma_device_line(serial: Seq<char>, pairs: Seq<(Seq<char>, Seq<char>)>)
    requires
        text::is_word(serial),
        forall|i: int|
            0 <= i < pairs.len() ==> is_field((#[trigger] pairs[i]).0) && is_field(pairs[i].1),
    ensures
        ({
            let words = text::words(device_line(serial, pairs));
            &&& words.len() == pairs.len() + 2
            &&& words[0] == serial
            &&& words[1] == "device"@
            &&& properties(words.skip(2)) == collected(pairs)
        }),
    decreases pairs.len(),
{
    let words = text::words(device_line(serial, pairs));
    if pairs.len() == 0 {
        reveal_strlit("device");
        text::lemma_words_one(serial);
        text::lemma_words_push(serial, '\t', "device"@);
        assert(words.skip(2) =~= Seq::<Seq<char>>::empty());
    } else {
        let front = pairs.drop_last();
        assert forall|i: int| 0 <= i < front.len() implies is_field((#[trigger] front[i]).0)
            && is_field(front[i].1) by {
            assert(front[i] == pairs[i]);
        }
        lemma_device_line(serial, front);
        let last = pairs.last();
        assert(last == pairs[pairs.len() - 1]);
        lemma_pair(last.0, last.1);
        let before = text::words(device_line(serial, front));
        text::lemma_words_push(device_line(serial, front), ' ', last.0.push(':') + last.1);
        assert(words == before.push(last.0.push(':') + last.1));
        assert(words.skip(2).drop_last() =~= before.skip(2));
        assert(words.skip(2).last() == last.0.push(':') + last.1);
    }
}

/// A device that the server lists as online is described as it was listed,
/// whatever its serial number and its properties.
pub proof fn law_listed_device_is_described(serial: Seq<char>, pairs: Seq<(Seq<char>, Seq<char>)>)
    requires
        text::is_word(serial),
        forall|i: int|
            0 <= i < pairs.len() ==> is_field((#[trigger] pairs[i]).0) && is_field(pairs[i].1),
    ensures
        described_device(device_line(serial, pairs)) == Some(
            DeviceInfoView { serial, info: collected(pairs) },
        ),
{
    lemma_device_line(serial, pairs);
}

/// A line describes a device exactly where it has a second word and that word is
/// `device`: in any other state, and in none, there is no device. The first word
/// is the serial number.
pub proof fn law_only_online_devices_are_described(line: Seq<char>)
    ensures
        ({
            let words = text::words(line);
            let online = words.len() >= 2 && words[1] == seq!['d', 'e', 'v', 'i', 'c', 'e'];
            &&& described_device(line) is Some <==> online
            &&& online ==> described_device(line)->0.serial == words[0]
            &&& online ==> described_device(line)->0.info == properties(words.skip(2))
        }),
{
    reveal_strlit("device");
    assert("device"@ =~= seq!['d', 'e', 'v', 'i', 'c', 'e']);
}

/// A word that is a key, one colon and a value sets the property; a word with no
/// colon, or with more than one, is passed over.
pub proof fn law_properties(words: Seq<Seq<char>>, a: Seq<char>, b: Seq<char>, c: Seq<char>)
    requires
        forall|i: int| 0 <= i < a.len() ==> #[trigger] a[i] != ':',
        forall|i: int| 0 <= i < b.len() ==> #[trigger] b[i] != ':',
    ensures
        properties(words.push(a.push(':') + b)) == properties(words).insert(a, b),
        properties(words.push(a)) == properties(words),
        properties(words.push(a.push(':') + (b.push(':') + c))) == properties(words),
        properties(Seq::<Seq<char>>::empty()) == Map::<Seq<char>, Seq<char>>::empty(),
{
    let sep = Separator::Char(':');
    assert(text::lacks(a, sep)) by {
        assert forall|i: int| 0 <= i < a.len() implies !sep.separates(#[trigger] a[i]) by {
            assert(a[i] != ':');
        }
    }
    assert(text::lacks(b, sep)) by {
        assert forall|i: int| 0 <= i < b.len() implies !sep.separates(#[trigger] b[i]) by {
            assert(b[i] != ':');
        }
    }
    text::lemma_split_one(a, sep);
    text::lemma_split_one(b, sep);
    text::lemma_split_some(c, sep);
    text::lemma_split_join(a, ':', b, sep);
    text::lemma_split_join(b, ':', c, sep);
    text::lemma_split_join(a, ':', b.push(':') + c, sep);
    assert(seq![a] + seq![b] =~= seq![a, b]);
    let one = a.push(':') + b;
    let two = a.push(':') + (b.push(':') + c);
    assert(words.push(one).drop_last() =~= words);
    assert(words.push(a).drop_last() =~= words);
    assert(words.push(two).drop_last() =~= words);
    assert(text::split_text(two, sep).len() >= 3);
}

/// The devices of some lines are those of the first of them and then those of
/// the others; of one line, the one that it describes.
pub proof fn law_devices_line_by_line(a: Seq<Seq<char>>, b: Seq<Seq<char>>, line: Seq<char>)
    ensures
        described_devices(a + b) == described_devices(a) + described_devices(b),
        described_devices(seq![line]) == (match described_device(line) {
            Some(device) => seq![device],
            None => seq![],
        }),
    decreases b.len(),
{
    let one = seq![line];
    assert(one.drop_last() =~= Seq::<Seq<char>>::empty());
    assert(described_devices(Seq::<Seq<char>>::empty()) =~= seq![]);
    assert(one.last() == line);
    assert(described_devices(one) =~= (match described_device(line) {
        Some(device) => seq![device],
        None => seq![],
    }));
    if b.len() == 0 {
        assert(a + b =~= a);
        assert(described_devices(a) + described_devices(b) =~= described_devices(a));
    } else {
        assert((a + b).drop_last() =~= a + b.drop_last());
        law_devices_line_by_line(a, b.drop_last(), line);
        assert(described_devices(a + b) =~= described_devices(a) + described_devices(b));
    }
}

/// Why no device is selected: the one that was asked for is not online, or none
/// was asked for and there are several, or there is none.
pub proof fn law_why_no_device_is_selected(online: Seq<Seq<char>>, wanted: Option<Seq<char>>)
    ensures
        ({
            let r = chosen_serial(online, wanted);
            &&& wanted matches Some(serial) ==> !online.contains(serial) ==> r == Err::<
                Seq<char>,
                ErrorView,
            >(ErrorView::UnknownDevice(serial))
            &&& wanted matches Some(serial) ==> online.contains(serial) ==> r == Ok::<
                Seq<char>,
                ErrorView,
            >(serial)
        }),
        wanted is None && online.len() > 1 ==> chosen_serial(online, wanted) == Err::<
            Seq<char>,
            ErrorView,
        >(ErrorView::MultipleDevices),
        wanted is None && online.len() == 1 ==> chosen_serial(online, wanted) == Ok::<
            Seq<char>,
            ErrorView,
        >(online[0]),
        wanted is None && online.len() == 0 ==> chosen_serial(online, wanted) == Err::<
            Seq<char>,
            ErrorView,
        >(ErrorView::Adb("No Android devices are online"@)),
{
}

/// The server is where it is said to be; where nothing is said, it is on this
/// machine, at its usual port.
pub proof fn law_where_the_server_is(host: Host)
    ensures
        host.host matches Some(name) ==> host.host_name() == name@,
        host.host is None ==> host.host_name() == "localhost"@,
        host.port matches Some(port) ==> host.port_number() == port,
        host.port is None ==> host.port_number() == 5037,
{
}

} // verus!
