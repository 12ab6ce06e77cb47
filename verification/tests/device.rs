use forensic_adb::shell::{is_quoted, needs_care, wrap_command};
use forensic_adb::{AndroidStorageInput, Device, DeviceError, Exchange, Host, UnixPath};

fn device() -> Device {
    Device::with_tempfile(
        Host::default(),
        "emu".to_string(),
        AndroidStorageInput::Auto,
        "temp",
    )
}

fn package_device() -> Device {
    let mut device = device();
    device.run_as_package = Some("org.x".to_string());
    device
}

fn steps(script: &Vec<Exchange>) -> Vec<String> {
    script
        .iter()
        .map(|step| match step {
            Exchange::Write(bytes) => format!("> {}", String::from_utf8(bytes.clone()).unwrap()),
            Exchange::Response {
                has_output,
                has_length,
            } => format!("< {} {}", has_output, has_length),
            Exchange::TooLong(e) => format!("! {}", e),
        })
        .collect()
}

/// The command that a script hands to the device, and how its answer is read.
fn command(script: &Vec<Exchange>) -> (String, String) {
    let steps = steps(script);
    assert_eq!(steps.len(), 4);
    assert_eq!(steps[0], "> 0012host:transport:emu");
    assert_eq!(steps[1], "< false false");
    let length = usize::from_str_radix(&steps[2][2..6], 16).unwrap();
    let text = steps[2][6..].to_string();
    assert_eq!(text.len(), length);
    (text, steps[3].clone())
}

fn shell(script: &Vec<Exchange>) -> String {
    let (text, answer) = command(script);
    assert_eq!(answer, "< true false");
    text
}

#[test]
fn device_shell_command() {
    assert_eq!(shell(&device().execute_host_shell_command("uname")), "shell:uname");
    assert_eq!(
        "Linux\n",
        Device::read_string(&b"Linux\n".to_vec()).expect("to have shell output")
    );
}

#[test]
fn line_ends_are_unified() {
    assert_eq!(Device::read_string(&b"a\r\nb\r\n".to_vec()).unwrap(), "a\nb\n");
    assert_eq!(Device::read_string(&b"a\r\r\nb\r".to_vec()).unwrap(), "a\r\nb\r");
    assert!(matches!(Device::read_string(&vec![0xff]), Err(DeviceError::Utf8(_))));
    assert!(matches!(Device::read_done(&vec![0xff]), Err(DeviceError::Utf8(_))));
    Device::read_done(&b"whatever".to_vec()).unwrap();
}

#[test]
fn commands_that_are_not_for_the_shell() {
    let device = device();
    assert_eq!(shell(&device.execute_host_exec_out_command("id")), "exec:id");
    assert_eq!(
        command(&device.execute_host_command("reboot:", false, true)),
        ("reboot:".to_string(), "< false true".to_string())
    );
    assert_eq!(
        command(&device.execute_host_command_to_string("jdwp", true, true)),
        ("jdwp".to_string(), "< true true".to_string())
    );
}

#[test]
fn a_command_that_is_too_long_ends_the_conversation() {
    let script = device().execute_host_command(&"x".repeat(65536), true, false);
    assert_eq!(
        steps(&script),
        vec![
            "> 0012host:transport:emu",
            "< false false",
            "! out of range integral type conversion attempted"
        ]
    );
    let mut nameless = device();
    nameless.serial = "s".repeat(65536);
    assert_eq!(
        steps(&nameless.execute_host_command("x", true, false)),
        vec!["! out of range integral type conversion attempted"]
    );
}

#[test]
fn commands_are_run_as_the_package() {
    let run = |text: &str| {
        shell(&package_device().execute_host_shell_command_as(text, true).unwrap())
    };
    assert_eq!(run("ls"), "shell:run-as org.x \"ls\"");
    assert_eq!(run("ls /a"), "shell:run-as org.x ls /a");
    assert_eq!(run("echo it's"), "shell:run-as org.x echo it'\"'\"'s");
    assert_eq!(run("\"ls /a\""), "shell:run-as org.x \"ls /a\"");
    assert_eq!(run("'ls /a'"), "shell:run-as org.x 'ls /a'");
    assert_eq!(run("\""), "shell:run-as org.x \"");
    assert_eq!(run("su -c id"), "shell:su -c id");
    assert_eq!(run("sum a"), "shell:sum a");
    assert_eq!(
        shell(&package_device().execute_host_shell_command_as("ls a", false).unwrap()),
        "shell:ls a"
    );
}

#[test]
fn a_package_is_needed_to_run_as_one() {
    assert!(matches!(
        device().execute_host_shell_command_as("ls", true),
        Err(DeviceError::MissingPackage)
    ));
    assert_eq!(
        shell(&device().execute_host_shell_command_as("su 0 ls", true).unwrap()),
        "shell:su 0 ls"
    );
    assert!(matches!(wrap_command("ls", true, &None), Err(DeviceError::MissingPackage)));
}

#[test]
fn special_characters() {
    let plain = "ABCXYZabcxyz0189_@%+=:,./-";
    assert!(!needs_care(plain));
    assert!(!needs_care(""));
    for c in plain.chars() {
        assert!(!needs_care(&c.to_string()));
    }
    for u in 0..0x250u32 {
        let c = char::from_u32(u).unwrap();
        assert_eq!(
            needs_care(&format!("a{}b", c)),
            !(c.is_ascii_alphanumeric() || "_@%+=:,./-".contains(c)),
            "{:x}",
            u
        );
    }
    assert!(is_quoted("'a'"));
    assert!(!is_quoted("'a\""));
    assert!(!is_quoted(""));
}

#[test]
fn files_of_the_package() {
    let device = package_device();
    assert!(device.enable_run_as_for_path(&UnixPath::new("/data/data/org.x/files/a")));
    assert!(device.enable_run_as_for_path(&UnixPath::new("/data/data/org.x")));
    assert!(!device.enable_run_as_for_path(&UnixPath::new("/data/data/org.xy/a")));
    assert!(!device.enable_run_as_for_path(&UnixPath::new("/sdcard/a")));
    let plain = self::device();
    assert!(!plain.enable_run_as_for_path(&UnixPath::new("/data/data/org.x")));
}

#[test]
fn commands_on_files() {
    let device = package_device();
    let mine = UnixPath::new("/data/data/org.x/a");
    let other = UnixPath::new("/sdcard/a");
    assert_eq!(shell(&device.create_dir(&other).unwrap()), "shell:mkdir -p /sdcard/a");
    assert_eq!(
        shell(&device.create_dir(&mine).unwrap()),
        "shell:run-as org.x mkdir -p /data/data/org.x/a"
    );
    assert_eq!(
        shell(&device.chmod(&other, "777", true).unwrap()),
        "shell:chmod  -R 777 /sdcard/a"
    );
    assert_eq!(
        shell(&device.chmod(&mine, "600", false).unwrap()),
        "shell:run-as org.x chmod  600 /data/data/org.x/a"
    );
    assert_eq!(
        shell(&device.open_up(&other).unwrap()),
        "shell:chmod  -R 777 /sdcard/a"
    );
    assert_eq!(shell(&device.remove(&other).unwrap()), "shell:rm -rf /sdcard/a");
    assert_eq!(
        shell(&device.remove(&mine).unwrap()),
        "shell:run-as org.x rm -rf /data/data/org.x/a"
    );
    assert_eq!(shell(&device.path_exists(&other, false).unwrap()), "shell:ls /sdcard/a");
    assert_eq!(
        shell(&device.path_exists(&other, true).unwrap()),
        "shell:run-as org.x ls /sdcard/a"
    );
    assert_eq!(
        shell(&device.copy(&other, &mine).unwrap()),
        "shell:run-as org.x cp -aR /sdcard/a /data/data/org.x/a"
    );
    assert!(matches!(
        self::device().path_exists(&other, true),
        Err(DeviceError::MissingPackage)
    ));
}

#[test]
fn whether_a_path_exists() {
    assert!(Device::read_path_exists(&b"/sdcard\r\n".to_vec()).unwrap());
    assert!(!Device::read_path_exists(&b"ls: /x: No such file or directory\n".to_vec()).unwrap());
    assert!(Device::read_path_exists(&b"".to_vec()).unwrap());
    assert!(matches!(Device::read_path_exists(&vec![0xff]), Err(DeviceError::Utf8(_))));
}

#[test]
fn packages() {
    let device = device();
    assert_eq!(shell(&device.clear_app_data("org.x")), "shell:pm clear org.x");
    assert!(Device::read_clear_app_data(&b"Success\n".to_vec()).unwrap());
    assert!(!Device::read_clear_app_data(&b"Failed\n".to_vec()).unwrap());
    assert_eq!(shell(&device.is_app_installed("org.x")), "shell:pm path org.x");
    assert!(Device::read_is_app_installed(&b"package:/data/app/x.apk".to_vec()).unwrap());
    assert!(!Device::read_is_app_installed(&b"".to_vec()).unwrap());
    assert_eq!(shell(&device.force_stop("org.x")), "shell:am force-stop org.x");
}

#[test]
fn launching() {
    let device = device();
    let nothing: Vec<String> = Vec::new();
    assert_eq!(
        shell(&device.launch("org.x", ".Main", &nothing, &nothing)),
        "shell:am start -W -n org.x/.Main"
    );
    let args = vec!["-d".to_string(), "a b".to_string()];
    let escaped = vec!["-d".to_string(), "a\\ b".to_string()];
    assert_eq!(
        shell(&device.launch("org.x", ".Main", &args, &escaped)),
        "shell:am start -W -n org.x/.Main -d \"a\\ b\""
    );
    assert!(Device::read_launch(&b"Status: ok\nComplete\n".to_vec()).unwrap());
    assert!(!Device::read_launch(&b"Error\n".to_vec()).unwrap());
}

#[test]
fn device_forward_port_hardcoded() {
    assert_eq!(
        steps(&device().forward_port(3035, 3036)),
        vec![
            "> 0029host-serial:emu:forward:tcp:3035;tcp:3036",
            "< true false"
        ]
    );
    assert_eq!(
        3035,
        Device::read_forward_port(3035, &b"".to_vec()).expect("forwarded local port")
    );
}

#[test]
fn a_port_that_the_server_chose() {
    assert_eq!(Device::read_forward_port(0, &b"40123".to_vec()).unwrap(), 40123);
    assert!(matches!(
        Device::read_forward_port(0, &b"000559464".to_vec()),
        Err(DeviceError::ParseInt(_))
    ));
    assert!(matches!(
        Device::read_forward_port(0, &b"40123\n".to_vec()),
        Err(DeviceError::ParseInt(_))
    ));
    assert!(matches!(
        Device::read_forward_port(7, &vec![0xff]),
        Err(DeviceError::Utf8(_))
    ));
    assert_eq!(Device::read_reverse_port(0, &b"40123".to_vec()).unwrap(), 40123);
    assert_eq!(
        Device::read_reverse_port(0, &b"".to_vec()).unwrap_err().message(),
        "cannot parse integer from empty string"
    );
}

#[test]
fn device_reverse_port_hardcoded() {
    assert_eq!(
        command(&device().reverse_port(4035, 4036)),
        ("reverse:forward:tcp:4035;tcp:4036".to_string(), "< true false".to_string())
    );
    assert_eq!(
        4035,
        Device::read_reverse_port(4035, &b"".to_vec()).expect("remote_port")
    );
}

#[test]
fn forwarding_ends() {
    let device = device();
    let answered = |script: Vec<Exchange>| command(&script);
    assert_eq!(
        answered(device.kill_forward_port(3038)),
        ("host-serial:emu:killforward:tcp:3038".to_string(), "< true false".to_string())
    );
    assert_eq!(
        answered(device.kill_forward_all_ports()),
        ("host-serial:emu:killforward-all".to_string(), "< false false".to_string())
    );
    assert_eq!(
        answered(device.kill_reverse_port(4038)),
        ("reverse:killforward:tcp:4038".to_string(), "< true true".to_string())
    );
    assert_eq!(
        answered(device.kill_reverse_all_ports()),
        ("reverse:killforward-all".to_string(), "< false false".to_string())
    );
}
