//! A device, and the requests that can be made of it.

use vstd::prelude::*;

use crate::adb::{DeviceSerial, SyncCommand};
use crate::conversation;
use crate::error;
use crate::error::{DeviceError, ErrorView, Outcome, Result};
use crate::exchange;
use crate::exchange::{Exchange, ExchangeView};
use crate::host::Host;
use crate::numbers;
use crate::path;
use crate::path::UnixPath;
use crate::response;
use crate::shell;
use crate::storage::{AndroidStorage, AndroidStorageInput};
use crate::text;
use crate::wire;

verus! {

/// A device that an adb server controls.
#[derive(Debug, Clone)]
pub struct Device {
    /// The adb server that controls this device.
    pub host: Host,
    /// The serial number that identifies this device.
    pub serial: DeviceSerial,
    /// The package as which commands on its own files are run.
    pub run_as_package: Option<String>,
    /// The storage in use.
    pub storage: AndroidStorage,
    /// The file that a push goes through when commands run as a package.
    pub tempfile: UnixPath,
}

// A new device

/// The directory for temporary files on a device.
pub open spec fn temp_dir() -> Seq<u8> {
    vstd::utf8::encode_utf8("/data/local/tmp"@)
}

/// A hexadecimal digit in lower case.
pub open spec fn is_lower_hex(c: char) -> bool {
    ||| 0x30 <= c as u32 <= 0x39
    ||| 0x61 <= c as u32 <= 0x66
}

/// The hyphenated form of a random UUID.
pub open spec fn is_uuid(s: Seq<char>) -> bool {
    &&& s.len() == 36
    &&& forall|i: int|
        0 <= i < 36 ==> if i == 8 || i == 13 || i == 18 || i == 23 {
            #[trigger] s[i] == '-'
        } else {
            is_lower_hex(s[i])
        }
    &&& s[14] == '4'
    &&& s[19] == '8' || s[19] == '9' || s[19] == 'a' || s[19] == 'b'
}

/// `uuid::Uuid::new_v4` in its hyphenated form: 32 lower-case hexadecimal
/// digits in five groups, of version 4 and of the variant of RFC 4122. The
/// other digits are random.
#[verifier::external_body]
fn random_uuid() -> (r: String)
    ensures
        is_uuid(r@),
{
    uuid::Uuid::new_v4().as_hyphenated().to_string()
}

proof fn lemma_lower_hex(c: char)
    requires
        is_lower_hex(c),
    ensures
        '\0' <= c <= '\u{7f}',
        c as u8 != path::SLASH,
{
}

proof fn lemma_uuid_relative(name: Seq<char>)
    requires
        is_uuid(name),
    ensures
        !path::is_absolute(vstd::utf8::encode_utf8(name)),
{
    assert forall|i: int| 0 <= i < name.len() implies '\0' <= #[trigger] name[i] <= '\u{7f}' by {
        if i == 8 || i == 13 || i == 18 || i == 23 {
            assert(name[i] == '-');
        } else {
            lemma_lower_hex(name[i]);
        }
    }
    lemma_lower_hex(name[0]);
    vstd::utf8::is_ascii_chars_encode_utf8(name);
}

impl Device {
    /// The device is as `new` leaves it: no package is set, the storage follows
    /// from the one asked for, and the temporary file is a random name in the
    /// directory for temporary files.
    pub open spec fn is_fresh(self, storage: AndroidStorageInput) -> bool {
        &&& self.run_as_package is None
        &&& self.storage == storage.in_use()
        &&& path::lies_under(self.tempfile@, temp_dir())
        &&& exists|name: Seq<char>| #[trigger]
            is_uuid(name) && self.tempfile@ == path::pushed(
                temp_dir(),
                vstd::utf8::encode_utf8(name),
            )
    }

    /// A device with a random temporary file.
    pub fn new(host: Host, serial: DeviceSerial, storage: AndroidStorageInput) -> (r: Result<
        Device,
    >)
        ensures
            r matches Ok(device) && device.host == host && device.serial == serial
                && device.is_fresh(storage),
    {
        let name: String = random_uuid();
        let device: Device = Device::with_tempfile(host, serial, storage, name.as_str());
        proof {
            lemma_uuid_relative(name@);
            path::law_push_stays_under(temp_dir(), vstd::utf8::encode_utf8(name@));
        }
        Ok(device)
    }

    /// A device whose temporary file has the given name.
    pub fn with_tempfile(
        host: Host,
        serial: DeviceSerial,
        storage: AndroidStorageInput,
        name: &str,
    ) -> (device: Device)
        ensures
            device.host == host,
            device.serial == serial,
            device.run_as_package is None,
            device.storage == storage.in_use(),
            device.tempfile@ == path::pushed(temp_dir(), vstd::utf8::encode_utf8(name@)),
    {
        Device {
            host,
            serial,
            run_as_package: None,
            storage: storage.resolve(),
            tempfile: UnixPath::new("/data/local/tmp").join(name),
        }
    }
}

// Running commands

/// The answer to a request mentions a phrase.
pub open spec fn mentions(bytes: Seq<u8>, phrase: Seq<char>) -> Outcome<bool> {
    match exchange::output_text(bytes) {
        Ok(answer) => Ok(text::contains_text(answer, phrase)),
        Err(e) => Err(e),
    }
}

fn read_mention(bytes: &Vec<u8>, phrase: &str) -> (r: Result<bool>)
    ensures
        error::outcome(r) == mentions(bytes@, phrase@),
{
    match exchange::read_output_text(bytes.as_slice()) {
        Ok(answer) => Ok(text::contains(answer.as_str(), phrase)),
        Err(e) => Err(e),
    }
}

/// The port that a request for a port was answered with: the one asked for,
/// or, where none was asked for, the one in the answer.
pub open spec fn assigned_port(requested: u16, answer: Outcome<Seq<char>>) -> Outcome<u16> {
    match answer {
        Err(e) => Err(e),
        Ok(digits) => if requested != 0 {
            Ok(requested)
        } else {
            match numbers::number_value(digits, 10, u16::MAX as nat) {
                Ok(port) => Ok(port as u16),
                Err(e) => Err(ErrorView::ParseInt(e)),
            }
        },
    }
}

fn read_port(requested: u16, answer: Result<String>) -> (r: Result<u16>)
    ensures
        error::outcome(r) == assigned_port(requested, error::outcome(answer)),
{
    match answer {
        Err(e) => Err(e),
        Ok(digits) => {
            if requested != 0 {
                return Ok(requested);
            }
            match numbers::parse_number(digits.as_str(), 10, u16::MAX as u64) {
                Ok(port) => Ok(port as u16),
                Err(e) => Err(DeviceError::ParseInt(e)),
            }
        },
    }
}

/// The command that starts an activity. An argument with special characters
/// stands between double quotes.
pub open spec fn launch_command(
    package: Seq<char>,
    activity: Seq<char>,
    args: Seq<Seq<char>>,
    escaped: Seq<Seq<char>>,
) -> Seq<char>
    decreases args.len(),
{
    if args.len() == 0 {
        "am start -W -n "@ + package + "/"@ + activity
    } else {
        launch_command(package, activity, args.drop_last(), escaped.drop_last()).push(' ') + (
        if shell::has_special(args.last()) {
            "\""@ + escaped.last() + "\""@
        } else {
            escaped.last()
        })
    }
}

impl Device {
    /// Files under this path belong to the package as which commands are run.
    pub open spec fn runs_as_for(self, p: Seq<u8>) -> bool {
        match self.run_as_package {
            Some(package) => path::lies_under(
                p,
                path::pushed(
                    vstd::utf8::encode_utf8("/data/data/"@),
                    vstd::utf8::encode_utf8(package@),
                ),
            ),
            None => false,
        }
    }

    /// The conversation that runs a shell command.
    pub open spec fn shell_script(self, command: Seq<char>, run_as: bool) -> Outcome<
        Seq<ExchangeView>,
    > {
        match shell::shell_request(command, run_as, shell::option_view(self.run_as_package)) {
            Ok(request) => Ok(exchange::device_script(self.serial@, request, true, false)),
            Err(e) => Err(e),
        }
    }

    /// Hands a command to the device. The answer is taken as bytes.
    pub fn execute_host_command(&self, command: &str, has_output: bool, has_length: bool) -> (r:
        Vec<Exchange>)
        ensures
            exchange::script_view(r@) == exchange::device_script(
                self.serial@,
                command@,
                has_output,
                has_length,
            ),
    {
        exchange::device_exchanges(self.serial.as_str(), command, has_output, has_length)
    }

    /// Hands a command to the device. The answer is text.
    pub fn execute_host_command_to_string(
        &self,
        command: &str,
        has_output: bool,
        has_length: bool,
    ) -> (r: Vec<Exchange>)
        ensures
            exchange::script_view(r@) == exchange::device_script(
                self.serial@,
                command@,
                has_output,
                has_length,
            ),
    {
        self.execute_host_command(command, has_output, has_length)
    }

    /// The answer to a command as text, with line feeds alone at the ends of
    /// lines.
    pub fn read_string(bytes: &Vec<u8>) -> (r: Result<String>)
        ensures
            error::outcome(r) == exchange::output_text(bytes@),
    {
        exchange::read_output_text(bytes.as_slice())
    }

    /// Whether the file at a path belongs to the package as which commands are
    /// run.
    pub fn enable_run_as_for_path(&self, p: &UnixPath) -> (r: bool)
        ensures
            r == self.runs_as_for(p@),
    {
        match &self.run_as_package {
            Some(package) => {
                let root: UnixPath = UnixPath::new("/data/data/").join(package.as_str());
                p.starts_with(&root)
            },
            None => false,
        }
    }

    /// Runs a shell command. The answer is text.
    pub fn execute_host_shell_command(&self, shell_command: &str) -> (r: Vec<Exchange>)
        ensures
            Ok::<Seq<ExchangeView>, ErrorView>(exchange::script_view(r@)) == self.shell_script(
                shell_command@,
                false,
            ),
    {
        let request: String = text::concat2("shell:", shell_command);
        self.execute_host_command(request.as_str(), true, false)
    }

    /// Runs a shell command. The answer is taken as bytes.
    pub fn execute_host_exec_out_command(&self, shell_command: &str) -> (r: Vec<Exchange>)
        ensures
            exchange::script_view(r@) == exchange::device_script(
                self.serial@,
                "exec:"@ + shell_command@,
                true,
                false,
            ),
    {
        let request: String = text::concat2("exec:", shell_command);
        self.execute_host_command(request.as_str(), true, false)
    }

    /// Runs a shell command, as the package where that is asked for.
    pub fn execute_host_shell_command_as(&self, shell_command: &str, enable_run_as: bool) -> (r:
        Result<Vec<Exchange>>)
        ensures
            exchange::script_outcome(r) == self.shell_script(shell_command@, enable_run_as),
    {
        match shell::wrap_command(shell_command, enable_run_as, &self.run_as_package) {
            Ok(request) => Ok(self.execute_host_command(request.as_str(), true, false)),
            Err(e) => Err(e),
        }
    }

    /// The end of a shell command whose output does not matter. It has to be
    /// text all the same.
    pub fn read_done(bytes: &Vec<u8>) -> (r: Result<()>)
        ensures
            match r {
                Ok(_) => wire::utf8_outcome(bytes@) is Ok,
                Err(e) => wire::utf8_outcome(bytes@) == Err::<Seq<char>, ErrorView>(e@),
            },
    {
        match exchange::read_output_text(bytes.as_slice()) {
            Ok(_) => Ok(()),
            Err(e) => Err(e),
        }
    }

    // Packages

    /// Removes the data of a package.
    pub fn clear_app_data(&self, package: &str) -> (r: Vec<Exchange>)
        ensures
            Ok::<Seq<ExchangeView>, ErrorView>(exchange::script_view(r@)) == self.shell_script(
                "pm clear "@ + package@,
                false,
            ),
    {
        let command: String = text::concat2("pm clear ", package);
        self.execute_host_shell_command(command.as_str())
    }

    /// Whether the data was removed.
    pub fn read_clear_app_data(bytes: &Vec<u8>) -> (r: Result<bool>)
        ensures
            error::outcome(r) == mentions(bytes@, "Success"@),
    {
        read_mention(bytes, "Success")
    }

    /// Asks for the path of a package.
    pub fn is_app_installed(&self, package: &str) -> (r: Vec<Exchange>)
        ensures
            Ok::<Seq<ExchangeView>, ErrorView>(exchange::script_view(r@)) == self.shell_script(
                "pm path "@ + package@,
                false,
            ),
    {
        let command: String = text::concat2("pm path ", package);
        self.execute_host_shell_command(command.as_str())
    }

    /// Whether the package is installed.
    pub fn read_is_app_installed(bytes: &Vec<u8>) -> (r: Result<bool>)
        ensures
            error::outcome(r) == mentions(bytes@, "package:"@),
    {
        read_mention(bytes, "package:")
    }

    /// Starts an activity of a package. Each argument is given twice: as it
    /// is, and escaped for the shell.
    pub fn launch(
        &self,
        package: &str,
        activity: &str,
        am_start_args: &Vec<String>,
        escaped: &Vec<String>,
    ) -> (r: Vec<Exchange>)
        requires
            am_start_args@.len() == escaped@.len(),
        ensures
            Ok::<Seq<ExchangeView>, ErrorView>(exchange::script_view(r@)) == self.shell_script(
                launch_command(
                    package@,
                    activity@,
                    text::strings_view(am_start_args@),
                    text::strings_view(escaped@),
                ),
                false,
            ),
    {
        let mut am_start: String = text::concat4("am start -W -n ", package, "/", activity);
        let ghost args = text::strings_view(am_start_args@);
        let ghost forms = text::strings_view(escaped@);
        for i in 0..am_start_args.len()
            invariant
                am_start_args@.len() == escaped@.len(),
                args == text::strings_view(am_start_args@),
                forms == text::strings_view(escaped@),
                am_start@ == launch_command(
                    package@,
                    activity@,
                    args.take(i as int),
                    forms.take(i as int),
                ),
        {
            assert(args.take(i + 1).drop_last() == args.take(i as int));
            assert(forms.take(i + 1).drop_last() == forms.take(i as int));
            assert(args.take(i + 1).last() == am_start_args@[i as int]@);
            assert(forms.take(i + 1).last() == escaped@[i as int]@);
            am_start.push(' ');
            if shell::needs_care(am_start_args[i].as_str()) {
                let quoted: String = text::concat3("\"", escaped[i].as_str(), "\"");
                am_start.append(quoted.as_str());
            } else {
                am_start.append(escaped[i].as_str());
            }
        }
        assert(args.take(args.len() as int) == args);
        assert(forms.take(forms.len() as int) == forms);
        self.execute_host_shell_command(am_start.as_str())
    }

    /// Whether the activity was started.
    pub fn read_launch(bytes: &Vec<u8>) -> (r: Result<bool>)
        ensures
            error::outcome(r) == mentions(bytes@, "Complete"@),
    {
        read_mention(bytes, "Complete")
    }

    /// Stops everything that belongs to a package.
    pub fn force_stop(&self, package: &str) -> (r: Vec<Exchange>)
        ensures
            Ok::<Seq<ExchangeView>, ErrorView>(exchange::script_view(r@)) == self.shell_script(
                "am force-stop "@ + package@,
                false,
            ),
    {
        let command: String = text::concat2("am force-stop ", package);
        self.execute_host_shell_command(command.as_str())
    }

    // Ports

    /// Forwards a local port to a port of the device; port 0 lets the server
    /// choose one. The request goes to the server.
    pub fn forward_port(&self, local: u16, remote: u16) -> (r: Vec<Exchange>)
        ensures
            exchange::script_view(r@) == exchange::request_script(
                "host-serial:"@ + self.serial@ + ":forward:tcp:"@ + numbers::decimal_text(
                    local as nat,
                ) + ";tcp:"@ + numbers::decimal_text(remote as nat),
                true,
                false,
            ),
    {
        let from: String = numbers::decimal(local as u64);
        let to: String = numbers::decimal(remote as u64);
        let mut command: String = text::concat4(
            "host-serial:",
            self.serial.as_str(),
            ":forward:tcp:",
            from.as_str(),
        );
        command.append(";tcp:");
        command.append(to.as_str());
        self.host.execute_command(command.as_str(), true, false)
    }

    /// The local port that is forwarded.
    pub fn read_forward_port(local: u16, bytes: &Vec<u8>) -> (r: Result<u16>)
        ensures
            error::outcome(r) == assigned_port(local, wire::utf8_outcome(bytes@)),
    {
        read_port(local, wire::decode_text(bytes.as_slice()))
    }

    /// Ends the forwarding of a local port.
    pub fn kill_forward_port(&self, local: u16) -> (r: Vec<Exchange>)
        ensures
            exchange::script_view(r@) == exchange::device_script(
                self.serial@,
                "host-serial:"@ + self.serial@ + ":killforward:tcp:"@ + numbers::decimal_text(
                    local as nat,
                ),
                true,
                false,
            ),
    {
        let port: String = numbers::decimal(local as u64);
        let command: String = text::concat4(
            "host-serial:",
            self.serial.as_str(),
            ":killforward:tcp:",
            port.as_str(),
        );
        self.execute_host_command(command.as_str(), true, false)
    }

    /// Ends the forwarding of all local ports.
    pub fn kill_forward_all_ports(&self) -> (r: Vec<Exchange>)
        ensures
            exchange::script_view(r@) == exchange::device_script(
                self.serial@,
                "host-serial:"@ + self.serial@ + ":killforward-all"@,
                false,
                false,
            ),
    {
        let command: String = text::concat3(
            "host-serial:",
            self.serial.as_str(),
            ":killforward-all",
        );
        self.execute_host_command(command.as_str(), false, false)
    }

    /// Forwards a port of the device to a local port; port 0 lets the device
    /// choose one.
    pub fn reverse_port(&self, remote: u16, local: u16) -> (r: Vec<Exchange>)
        ensures
            exchange::script_view(r@) == exchange::device_script(
                self.serial@,
                "reverse:forward:tcp:"@ + numbers::decimal_text(remote as nat) + ";tcp:"@
                    + numbers::decimal_text(local as nat),
                true,
                false,
            ),
    {
        let from: String = numbers::decimal(remote as u64);
        let to: String = numbers::decimal(local as u64);
        let command: String = text::concat4(
            "reverse:forward:tcp:",
            from.as_str(),
            ";tcp:",
            to.as_str(),
        );
        self.execute_host_command(command.as_str(), true, false)
    }

    /// The port of the device that is forwarded.
    pub fn read_reverse_port(remote: u16, bytes: &Vec<u8>) -> (r: Result<u16>)
        ensures
            error::outcome(r) == assigned_port(remote, exchange::output_text(bytes@)),
    {
        read_port(remote, exchange::read_output_text(bytes.as_slice()))
    }

    /// Ends the forwarding of a port of the device.
    pub fn kill_reverse_port(&self, remote: u16) -> (r: Vec<Exchange>)
        ensures
            exchange::script_view(r@) == exchange::device_script(
                self.serial@,
                "reverse:killforward:tcp:"@ + numbers::decimal_text(remote as nat),
                true,
                true,
            ),
    {
        let port: String = numbers::decimal(remote as u64);
        let command: String = text::concat2("reverse:killforward:tcp:", port.as_str());
        self.execute_host_command(command.as_str(), true, true)
    }

    /// Ends the forwarding of all ports of the device.
    pub fn kill_reverse_all_ports(&self) -> (r: Vec<Exchange>)
        ensures
            exchange::script_view(r@) == exchange::device_script(
                self.serial@,
                "reverse:killforward-all"@,
                false,
                false,
            ),
    {
        self.execute_host_command("reverse:killforward-all", false, false)
    }

    // Files

    /// Creates a directory, and the directories above it.
    pub fn create_dir(&self, p: &UnixPath) -> (r: Result<Vec<Exchange>>)
        ensures
            exchange::script_outcome(r) == self.shell_script(
                "mkdir -p "@ + path::display_text(p@),
                self.runs_as_for(p@),
            ),
    {
        let command: String = text::concat2("mkdir -p ", p.display().as_str());
        self.execute_host_shell_command_as(command.as_str(), self.enable_run_as_for_path(p))
    }

    /// Changes the mode of a file, or of everything below a directory.
    pub fn chmod(&self, p: &UnixPath, mask: &str, recursive: bool) -> (r: Result<Vec<Exchange>>)
        ensures
            exchange::script_outcome(r) == self.shell_script(
                "chmod "@ + (if recursive {
                    " -R"@
                } else {
                    ""@
                }) + " "@ + mask@ + " "@ + path::display_text(p@),
                self.runs_as_for(p@),
            ),
    {
        let flag: &str = if recursive {
            " -R"
        } else {
            ""
        };
        let mut command: String = text::concat4("chmod ", flag, " ", mask);
        command.append(" ");
        command.append(p.display().as_str());
        self.execute_host_shell_command_as(command.as_str(), self.enable_run_as_for_path(p))
    }

    /// Removes a file, or a directory and all that it holds.
    pub fn remove(&self, p: &UnixPath) -> (r: Result<Vec<Exchange>>)
        ensures
            exchange::script_outcome(r) == self.shell_script(
                "rm -rf "@ + path::display_text(p@),
                self.runs_as_for(p@),
            ),
    {
        let command: String = text::concat2("rm -rf ", p.display().as_str());
        self.execute_host_shell_command_as(command.as_str(), self.enable_run_as_for_path(p))
    }

    /// Lists a path, to see whether it exists.
    pub fn path_exists(&self, p: &UnixPath, enable_run_as: bool) -> (r: Result<Vec<Exchange>>)
        ensures
            exchange::script_outcome(r) == self.shell_script(
                "ls "@ + path::display_text(p@),
                enable_run_as,
            ),
    {
        let command: String = text::concat2("ls ", p.display().as_str());
        self.execute_host_shell_command_as(command.as_str(), enable_run_as)
    }

    /// Whether the path exists.
    pub fn read_path_exists(bytes: &Vec<u8>) -> (r: Result<bool>)
        ensures
            error::outcome(r) == (match mentions(bytes@, "No such file or directory"@) {
                Ok(missing) => Ok(!missing),
                Err(e) => Err(e),
            }),
    {
        match read_mention(bytes, "No such file or directory") {
            Ok(missing) => Ok(!missing),
            Err(e) => Err(e),
        }
    }
}

// Laws

/// Commands on the files of the package are run as the package: whatever is
/// joined to its directory and is not absolute is one of its files.
pub proof fn law_package_files_run_as(device: Device, package: Seq<char>, relative: Seq<u8>)
    requires
        shell::option_view(device.run_as_package) == Some(package),
        !path::is_absolute(relative),
    ensures
        device.runs_as_for(
            path::pushed(
                path::pushed(
                    vstd::utf8::encode_utf8("/data/data/"@),
                    vstd::utf8::encode_utf8(package),
                ),
                relative,
            ),
        ),
{
    path::law_push_stays_under(
        path::pushed(vstd::utf8::encode_utf8("/data/data/"@), vstd::utf8::encode_utf8(package)),
        relative,
    );
}

/// A command on a file is never refused for want of a package: it is run as a
/// package only where one is set.
pub proof fn law_file_commands_have_package(device: Device, command: Seq<char>, p: Seq<u8>)
    ensures
        device.shell_script(command, device.runs_as_for(p)) is Ok,
{
}

/// A command goes to the device on the same connection as the request for the
/// device, behind it, and only once the server has accepted that request; a
/// command that is too long is not sent. The conversation then ends with the
/// answer to the command.
pub proof fn law_command_follows_accepted_transport(
    device: Device,
    command: Seq<char>,
    has_output: bool,
    has_length: bool,
    incoming: Seq<u8>,
    traced: bool,
)
    ensures
        ({
            let transport = "host:transport:"@ + device.serial@;
            let end = conversation::held(
                exchange::device_script(device.serial@, command, has_output, has_length),
                incoming,
                traced,
            );
            let accepted = incoming.len() >= 4 && incoming.take(4) == SyncCommand::Okay.bytes();
            if !wire::message_fits(transport) {
                &&& end.sent == Seq::<Seq<u8>>::empty()
                &&& end.ending == Some(Err::<Seq<u8>, ErrorView>(ErrorView::FromInt))
            } else if !accepted {
                &&& end.sent == seq![exchange::request_bytes(transport)]
                &&& !(end.ending matches Some(Ok(_)))
            } else if !wire::message_fits(command) {
                &&& end.sent == seq![exchange::request_bytes(transport)]
                &&& end.ending == Some(Err::<Seq<u8>, ErrorView>(ErrorView::FromInt))
            } else {
                &&& end.sent == seq![
                    exchange::request_bytes(transport),
                    exchange::request_bytes(command),
                ]
                &&& end.ending == response::fresh(has_output, has_length, traced).answer(
                    incoming.skip(4),
                )
            }
        }),
{
    let transport = "host:transport:"@ + device.serial@;
    let later = exchange::request_script(command, has_output, has_length);
    let script = exchange::device_script(device.serial@, command, has_output, has_length);
    let reader = response::fresh(false, false, traced);
    if !wire::message_fits(transport) {
        assert(script =~= seq![ExchangeView::TooLong]);
    } else {
        let bytes = exchange::request_bytes(transport);
        assert(script == exchange::request_script(transport, false, false) + later);
        conversation::law_failed_answer_ends_conversation(
            bytes,
            false,
            false,
            later,
            incoming,
            traced,
        );
        if incoming.len() >= 4 && incoming.take(4) == SyncCommand::Okay.bytes() {
            let rest = incoming.skip(4);
            assert(SyncCommand::Okay.bytes() + rest =~= incoming);
            response::law_accepted_without_output(rest, false, traced);
            if wire::message_fits(command) {
                conversation::law_failed_answer_ends_conversation(
                    exchange::request_bytes(command),
                    has_output,
                    has_length,
                    seq![],
                    rest,
                    traced,
                );
                assert(later + Seq::<ExchangeView>::empty() =~= later);
                let second = conversation::held(later, rest, traced);
                assert(second.sent =~= seq![exchange::request_bytes(command)]);
                assert(seq![bytes] + second.sent =~= seq![
                    bytes,
                    exchange::request_bytes(command),
                ]);
            } else {
                assert(later =~= seq![ExchangeView::TooLong]);
                assert(seq![bytes] + Seq::<Seq<u8>>::empty() =~= seq![bytes]);
            }
        } else {
            response::lemma_refusal_is_no_success(reader, incoming);
        }
    }
}

/// When the server refuses the request for the device, the command is never
/// sent, and the conversation ends with the server's message.
pub proof fn law_refused_transport(
    device: Device,
    command: Seq<char>,
    has_output: bool,
    has_length: bool,
    status: Seq<u8>,
    message: Seq<char>,
    rest: Seq<u8>,
    traced: bool,
)
    requires
        wire::message_fits("host:transport:"@ + device.serial@),
        status.len() == 4,
        status != SyncCommand::Okay.bytes(),
        wire::message_fits(message),
    ensures
        ({
            let bytes = vstd::utf8::encode_utf8(message);
            let end = conversation::held(
                exchange::device_script(device.serial@, command, has_output, has_length),
                status + vstd::utf8::encode_utf8(wire::message_text(message)) + rest,
                traced,
            );
            &&& end.sent == seq![exchange::request_bytes("host:transport:"@ + device.serial@)]
            &&& end.ending == Some(
                if bytes.len() <= 1024 {
                    Err::<Seq<u8>, ErrorView>(ErrorView::Adb("adb error: "@ + message))
                } else {
                    response::server_error(bytes.take(1024))
                },
            )
        }),
{
    let transport = "host:transport:"@ + device.serial@;
    let later = exchange::request_script(command, has_output, has_length);
    let incoming = status + vstd::utf8::encode_utf8(wire::message_text(message)) + rest;
    response::law_refused_request(status, message, rest, false, false, traced);
    assert(exchange::device_script(device.serial@, command, has_output, has_length)
        == exchange::request_script(transport, false, false) + later);
    conversation::law_failed_answer_ends_conversation(
        exchange::request_bytes(transport),
        false,
        false,
        later,
        incoming,
        traced,
    );
}

/// The component that is started is the one that was named: the command is the
/// start command, the package, a slash and the activity, all as they were given,
/// and nothing more where there are no arguments. With arguments a space follows.
pub proof fn law_launch_starts_the_named_activity(
    package: Seq<char>,
    activity: Seq<char>,
    args: Seq<Seq<char>>,
    escaped: Seq<Seq<char>>,
)
    requires
        args.len() == escaped.len(),
    ensures
        ({
            let start = "am start -W -n "@ + package + "/"@ + activity;
            let command = launch_command(package, activity, args, escaped);
            &&& start.is_prefix_of(command)
            &&& args.len() == 0 ==> command == start
            &&& args.len() > 0 ==> command.len() > start.len() && command[start.len() as int] == ' '
        }),
    decreases args.len(),
{
    let start = "am start -W -n "@ + package + "/"@ + activity;
    let command = launch_command(package, activity, args, escaped);
    if args.len() == 0 {
        assert(start =~= command.subrange(0, start.len() as int));
    } else {
        let front = launch_command(package, activity, args.drop_last(), escaped.drop_last());
        law_launch_starts_the_named_activity(
            package,
            activity,
            args.drop_last(),
            escaped.drop_last(),
        );
        assert(front =~= command.subrange(0, front.len() as int));
        assert(command[front.len() as int] == ' ');
        assert(start =~= command.subrange(0, start.len() as int)) by {
            assert(start =~= front.subrange(0, start.len() as int));
            assert forall|i: int| 0 <= i < start.len() implies start[i] == command.subrange(
                0,
                start.len() as int,
            )[i] by {
                assert(start[i] == front.subrange(0, start.len() as int)[i]);
                assert(front[i] == command.subrange(0, front.len() as int)[i]);
            }
        }
        if args.len() > 1 {
            let at = start.len() as int;
            assert(command[at] == command.subrange(0, front.len() as int)[at]);
        } else {
            assert(front == start);
        }
    }
}

/// One more argument is one more space and the argument in its escaped form, in
/// double quotes where the argument holds a character that is not plain.
pub proof fn law_launch_passes_each_argument(
    package: Seq<char>,
    activity: Seq<char>,
    args: Seq<Seq<char>>,
    escaped: Seq<Seq<char>>,
    arg: Seq<char>,
    form: Seq<char>,
)
    requires
        args.len() == escaped.len(),
    ensures
        ({
            let before = launch_command(package, activity, args, escaped);
            let after = launch_command(package, activity, args.push(arg), escaped.push(form));
            let special = exists|i: int| 0 <= i < arg.len() && !shell::is_plain(#[trigger] arg[i]);
            &&& special ==> after == before + " \""@ + form + "\""@
            &&& !special ==> after == before + " "@ + form
        }),
{
    reveal_strlit(" \"");
    reveal_strlit("\"");
    reveal_strlit(" ");
    assert(args.push(arg).drop_last() =~= args);
    assert(escaped.push(form).drop_last() =~= escaped);
    let before = launch_command(package, activity, args, escaped);
    assert(before.push(' ') + ("\""@ + form + "\""@) =~= before + " \""@ + form + "\""@);
    assert(before.push(' ') + form =~= before + " "@ + form);
}

/// A port that was asked for is the one that is given; where none was asked for,
/// the answer names it in decimal. An error is passed on, and so is an answer
/// that is no port.
pub proof fn law_port_is_the_one_asked_for_or_answered(
    requested: u16,
    answered: u16,
    answer: Outcome<Seq<char>>,
)
    ensures
        requested != 0 && answer is Ok ==> assigned_port(requested, answer) == Ok::<u16, ErrorView>(
            requested,
        ),
        assigned_port(
            0,
            Ok::<Seq<char>, ErrorView>(numbers::decimal_text(answered as nat)),
        ) == Ok::<u16, ErrorView>(answered),
        answer matches Err(e) ==> assigned_port(requested, answer) == Err::<u16, ErrorView>(e),
        answer matches Ok(digits) ==> (assigned_port(0, answer) is Ok ==> ({
            let rest = if digits.len() > 0 && digits[0] == '+' {
                digits.skip(1)
            } else {
                digits
            };
            rest.len() > 0 && numbers::are_digits(rest) && assigned_port(0, answer)->Ok_0
                == rest.fold_left(0int, |v: int, c: char| v * 10 + (c as u32 - 0x30))
        })),
        answer matches Ok(digits) ==> (numbers::number_value(digits, 10, 65535) matches Err(e)
            ==> assigned_port(0, answer) == Err::<u16, ErrorView>(ErrorView::ParseInt(e))),
{
    numbers::law_decimal_read_back(answered as nat, u16::MAX as nat);
    if let Ok(digits) = answer {
        numbers::law_number_adds_up(digits, u16::MAX as nat);
    }
}

/// An answer mentions a phrase exactly where its text is something, then the
/// phrase, and then something.
pub proof fn law_mentions(answer: Seq<char>, phrase: Seq<char>)
    requires
        forall|x: Seq<char>, y: Seq<char>| answer != #[trigger] (x + "\r\n"@ + y),
    ensures
        mentions(vstd::utf8::encode_utf8(answer), phrase) == Ok::<bool, ErrorView>(
            exists|a: Seq<char>, b: Seq<char>| answer == #[trigger] (a + phrase + b),
        ),
{
    exchange::law_output_is_read_as_it_is_but_for_line_ends(answer, answer);
    text::law_contains(answer, phrase);
}

/// A shell command goes to the device as the word `shell:` and the command, in
/// a request of its own behind the one that names the device; its output is read
/// to the end of the stream.
pub proof fn law_shell_command_reaches_the_device(device: Device, command: Seq<char>)
    requires
        vstd::utf8::encode_utf8("host:transport:"@ + device.serial@).len() <= 65535,
        vstd::utf8::encode_utf8("shell:"@ + command).len() <= 65535,
    ensures
        ({
            let transport = vstd::utf8::encode_utf8("host:transport:"@ + device.serial@);
            let bytes = vstd::utf8::encode_utf8("shell:"@ + command);
            &&& device.shell_script(command, false) is Ok
            &&& ({
                let script = device.shell_script(command, false)->Ok_0;
                &&& script.len() == 4
                &&& script[0] matches ExchangeView::Write(sent) && sent.skip(4) == transport
                &&& script[1] == ExchangeView::Response { has_output: false, has_length: false }
                &&& script[2] matches ExchangeView::Write(sent) && sent.skip(4) == bytes
                &&& script[3] == ExchangeView::Response { has_output: true, has_length: false }
            })
        }),
{
    exchange::law_device_script_is_two_requests(device.serial@, "shell:"@ + command, true, false);
    shell::law_plain_command(command, shell::option_view(device.run_as_package));
}

proof fn lemma_ascii(s: Seq<char>, bytes: Seq<u8>)
    requires
        s.len() == bytes.len(),
        forall|i: int|
            0 <= i < s.len() ==> '\0' <= #[trigger] s[i] <= '\u{7f}' && s[i] as u8 == bytes[i],
    ensures
        vstd::utf8::encode_utf8(s) == bytes,
{
    vstd::utf8::is_ascii_chars_encode_utf8(s);
    assert(vstd::utf8::encode_utf8(s) =~= bytes);
}

proof fn lemma_data_directory()
    ensures
        path::components(vstd::utf8::encode_utf8("/data/data/"@)) == seq![
            seq![0x2fu8],
            seq![0x64u8, 0x61, 0x74, 0x61],
            seq![0x64u8, 0x61, 0x74, 0x61],
        ],
        vstd::utf8::encode_utf8("/data/data/"@).len() > 0,
{
    reveal_strlit("/data/data/");
    let data = seq![0x64u8, 0x61, 0x74, 0x61];
    let root = seq![path::SLASH];
    let one = path::pushed(root, data);
    let two = path::pushed(one, data);
    let bytes = seq![0x2fu8, 0x64, 0x61, 0x74, 0x61, 0x2f, 0x64, 0x61, 0x74, 0x61, 0x2f];
    assert(one =~= seq![0x2fu8, 0x64, 0x61, 0x74, 0x61]);
    assert(two =~= seq![0x2fu8, 0x64, 0x61, 0x74, 0x61, 0x2f, 0x64, 0x61, 0x74, 0x61]);
    assert(two.push(path::SLASH) =~= bytes);
    lemma_ascii("/data/data/"@, bytes);
    assert(data.len() == 4 && seq![path::DOT].len() == 1);
    path::law_root_is_one_component();
    path::law_pushed_name_is_one_more_component(root, data);
    path::law_pushed_name_is_one_more_component(one, data);
    path::law_trailing_slash(two);
    assert(path::components(bytes) =~= seq![root, data, data]);
}

/// Commands on a file are run as the package exactly where the file is the
/// directory `/data/data` with the package's name below it, or lies in it.
pub proof fn law_run_as_is_for_the_files_of_the_package_alone(
    device: Device,
    package: Seq<char>,
    p: Seq<u8>,
)
    requires
        package.len() > 0,
        forall|i: int| 0 <= i < package.len() ==> #[trigger] package[i] != '/',
        vstd::utf8::encode_utf8(package) != seq![0x2eu8],
    ensures
        device.run_as_package is None ==> !device.runs_as_for(p),
        shell::option_view(device.run_as_package) == Some(package) ==> (device.runs_as_for(p) <==> {
            let parts = path::components(p);
            &&& parts.len() >= 4
            &&& parts[0] == seq![0x2fu8]
            &&& parts[1] == seq![0x64u8, 0x61, 0x74, 0x61]
            &&& parts[2] == seq![0x64u8, 0x61, 0x74, 0x61]
            &&& parts[3] == vstd::utf8::encode_utf8(package)
        }),
{
    let name = vstd::utf8::encode_utf8(package);
    crate::tree::lemma_name_bytes(package);
    lemma_data_directory();
    let base = vstd::utf8::encode_utf8("/data/data/"@);
    path::law_pushed_name_is_one_more_component(base, name);
    let root = path::components(path::pushed(base, name));
    let data = seq![0x64u8, 0x61, 0x74, 0x61];
    assert(root =~= seq![seq![0x2fu8], data, data, name]);
    let parts = path::components(p);
    if root.is_prefix_of(parts) {
        assert(parts.subrange(0, 4)[0] == parts[0]);
        assert(parts.subrange(0, 4)[1] == parts[1]);
        assert(parts.subrange(0, 4)[2] == parts[2]);
        assert(parts.subrange(0, 4)[3] == parts[3]);
    } else if parts.len() >= 4 && parts[0] == seq![0x2fu8] && parts[1] == data && parts[2] == data
        && parts[3] == name {
        assert(parts.subrange(0, 4) =~= root);
    }
}

/// A phrase is looked for in the answer as it reads once its line ends are
/// unified; an answer that is no text is an error.
pub proof fn law_mentions_in_unified_text(bytes: Seq<u8>, answer: Seq<char>, phrase: Seq<char>)
    ensures
        exchange::output_text(bytes) == Ok::<Seq<char>, ErrorView>(answer) ==> mentions(
            bytes,
            phrase,
        ) == Ok::<bool, ErrorView>(
            exists|a: Seq<char>, b: Seq<char>| answer == #[trigger] (a + phrase + b),
        ),
        !vstd::utf8::valid_utf8(bytes) ==> mentions(bytes, phrase) == Err::<bool, ErrorView>(
            ErrorView::Utf8(wire::utf8_error(bytes)),
        ),
{
    text::law_contains(answer, phrase);
}

/// The temporary file lies in the device's directory for temporary files.
pub proof fn law_where_the_temporary_file_is(name: Seq<char>)
    requires
        is_uuid(name),
    ensures
        path::pushed(temp_dir(), vstd::utf8::encode_utf8(name)) == vstd::utf8::encode_utf8(
            "/data/local/tmp/"@ + name,
        ),
{
    reveal_strlit("/data/local/tmp");
    reveal_strlit("/data/local/tmp/");
    lemma_uuid_relative(name);
    let short = "/data/local/tmp"@;
    let long = "/data/local/tmp/"@;
    let bytes = seq![
        0x2fu8,
        0x64,
        0x61,
        0x74,
        0x61,
        0x2f,
        0x6c,
        0x6f,
        0x63,
        0x61,
        0x6c,
        0x2f,
        0x74,
        0x6d,
        0x70,
    ];
    lemma_ascii(short, bytes);
    lemma_ascii(long, bytes.push(0x2f));
    wire::lemma_encode_concat(long, name);
}

/// A new device runs no commands as a package, uses the storage that was asked
/// for, and has a temporary file of a random name in the device's directory for
/// temporary files.
pub proof fn law_new_device(device: Device, storage: AndroidStorageInput)
    requires
        device.is_fresh(storage),
    ensures
        device.run_as_package is None,
        device.storage == storage.in_use(),
        exists|name: Seq<char>| #[trigger]
            is_uuid(name) && device.tempfile@ == vstd::utf8::encode_utf8(
                "/data/local/tmp/"@ + name,
            ),
{
    let name = choose|name: Seq<char>| #[trigger]
        is_uuid(name) && device.tempfile@ == path::pushed(
            temp_dir(),
            vstd::utf8::encode_utf8(name),
        );
    law_where_the_temporary_file_is(name);
}

/// A shell command that is run as a package reaches the device like any other:
/// what is sent is the request that it is wrapped in, and the output is read to
/// the end of the stream. Where it cannot be wrapped, that is the error.
pub proof fn law_wrapped_command_reaches_the_device(
    device: Device,
    command: Seq<char>,
    run_as: bool,
    request: Seq<char>,
)
    requires
        vstd::utf8::encode_utf8("host:transport:"@ + device.serial@).len() <= 65535,
        vstd::utf8::encode_utf8(request).len() <= 65535,
    ensures
        ({
            let transport = vstd::utf8::encode_utf8("host:transport:"@ + device.serial@);
            let bytes = vstd::utf8::encode_utf8(request);
            let package = shell::option_view(device.run_as_package);
            let wrapped = shell::shell_request(command, run_as, package);
            let script = device.shell_script(command, run_as);
            &&& wrapped is Err ==> script == Err::<Seq<ExchangeView>, ErrorView>(wrapped->Err_0)
            &&& wrapped == Ok::<Seq<char>, ErrorView>(request) ==> {
                &&& script is Ok
                &&& script->Ok_0.len() == 4
                &&& script->Ok_0[0] matches ExchangeView::Write(sent) && sent.skip(4) == transport
                &&& script->Ok_0[1] == ExchangeView::Response {
                    has_output: false,
                    has_length: false,
                }
                &&& script->Ok_0[2] matches ExchangeView::Write(sent) && sent.skip(4) == bytes
                &&& script->Ok_0[3] == ExchangeView::Response {
                    has_output: true,
                    has_length: false,
                }
            }
        }),
{
    exchange::law_device_script_is_two_requests(device.serial@, request, true, false);
}

} // verus!
