use forensic_adb::host::{parse_device_info, select_serial};
use forensic_adb::{
    AndroidStorage, AndroidStorageInput, Device, DeviceError, DeviceInfo, Exchange, Host,
    UnixPath,
};

const LISTING: &str = "List of devices attached\n\
    emulator-5554\tdevice product:sdk_phone model:Android_SDK device:generic transport_id:1\n\
    0123456789\toffline usb:1-1\n\
    \n";

fn one_device() -> Vec<DeviceInfo> {
    Host::read_devices(&LISTING.as_bytes().to_vec()).expect("to query devices")
}

fn two_devices() -> Vec<DeviceInfo> {
    Host::read_devices(&b"a\tdevice\r\nb\tdevice usb:1-1".to_vec()).unwrap()
}

fn selected(serial: Option<&str>, storage: AndroidStorageInput) -> Result<Device, DeviceError> {
    Host::default().device_or_default(
        &one_device(),
        serial.map(|s| s.to_string()),
        None,
        storage,
    )
}

fn steps(script: &Vec<Exchange>) -> Vec<String> {
    script
        .iter()
        .map(|step| match step {
            Exchange::Write(bytes) => format!("> {}", String::from_utf8(bytes.clone()).unwrap()),
            Exchange::Response {
                has_output,
                has_length,
            } => format!("< {} {}", has_output, has_length),
            Exchange::TooLong(e) => format!("! {}", e),
        })
        .collect()
}

#[test]
fn host_features() {
    let host = Host {
        ..Default::default()
    };
    assert_eq!(steps(&host.features()), vec!["> 000Dhost:features", "< true true"]);

    let set = Host::read_features(&b"shell_v2,cmd,stat_v2".to_vec()).expect("to query features");
    assert_eq!(set, vec!["shell_v2", "cmd", "stat_v2"]);
    assert!(set.contains(&"cmd".to_string()));
    assert!(set.contains(&"shell_v2".to_string()));
    assert_eq!(Host::read_features(&b"".to_vec()).unwrap(), vec![""]);
    assert!(matches!(Host::read_features(&vec![0xff]), Err(DeviceError::Utf8(_))));
}

#[test]
fn host_devices() {
    let host = Host {
        ..Default::default()
    };
    assert_eq!(steps(&host.devices()), vec!["> 000Ehost:devices-l", "< true true"]);

    let set = one_device();
    assert_eq!(1, set.len());
    assert_eq!(set[0].serial, "emulator-5554");
    assert_eq!(set[0].info.get("product").unwrap(), "sdk_phone");
    assert_eq!(set[0].info.get("device").unwrap(), "generic");
    assert_eq!(set[0].info.entries().len(), 4);
    assert!(matches!(Host::read_devices(&vec![0xff]), Err(DeviceError::Utf8(_))));
}

#[test]
fn host_device_or_default() {
    let devices = one_device();
    let expected_device = devices.first().expect("found a device");

    let device = selected(Some(&expected_device.serial), AndroidStorageInput::App)
        .expect("connected device with serial");
    assert_eq!(device.run_as_package, None);
    assert_eq!(device.serial, expected_device.serial);
    assert!(device.tempfile.starts_with(&UnixPath::new("/data/local/tmp")));
}

#[test]
fn host_device_or_default_invalid_serial() {
    let error =
        selected(Some("foobar"), AndroidStorageInput::Auto).expect_err("invalid serial");
    assert_eq!(error.message(), "Unknown Android device with serial 'foobar'");
}

#[test]
fn host_device_or_default_no_serial() {
    let devices = one_device();
    let expected_device = devices.first().expect("found a device");

    let device =
        selected(None, AndroidStorageInput::Auto).expect("connected device with serial");
    assert_eq!(device.serial, expected_device.serial);
}

#[test]
fn host_device_or_default_storage_as_app() {
    let device = selected(None, AndroidStorageInput::App).expect("connected device");
    assert_eq!(device.storage, AndroidStorage::App);
}

#[test]
fn host_device_or_default_storage_as_auto() {
    let device = selected(None, AndroidStorageInput::Auto).expect("connected device");
    assert_eq!(device.storage, AndroidStorage::Sdcard);
}

#[test]
fn host_device_or_default_storage_as_internal() {
    let device = selected(None, AndroidStorageInput::Internal).expect("connected device");
    assert_eq!(device.storage, AndroidStorage::Internal);
}

#[test]
fn host_device_or_default_storage_as_sdcard() {
    let device = selected(None, AndroidStorageInput::Sdcard).expect("connected device");
    assert_eq!(device.storage, AndroidStorage::Sdcard);
}

#[test]
fn the_environment_chooses_among_several_devices() {
    let choose = |serial: Option<&str>, env: Option<&str>| {
        Host::default().device_or_default(
            &two_devices(),
            serial.map(|s| s.to_string()),
            env.map(|s| s.to_string()),
            AndroidStorageInput::default(),
        )
    };
    assert!(matches!(choose(None, None), Err(DeviceError::MultipleDevices)));
    assert_eq!(choose(None, Some("b")).unwrap().serial, "b");
    assert_eq!(choose(Some("a"), Some("b")).unwrap().serial, "a");
    assert!(matches!(choose(Some("c"), Some("b")), Err(DeviceError::UnknownDevice(_))));
}

#[test]
fn no_device_is_online() {
    let error = Host::default()
        .device_or_default(&Vec::new(), None, None, AndroidStorageInput::Auto)
        .unwrap_err();
    assert_eq!(error.message(), "No Android devices are online");
    let online = vec!["a".to_string()];
    assert_eq!(select_serial(&online, None).unwrap(), "a");
    assert!(select_serial(&online, Some("b".to_string())).is_err());
}

#[test]
fn temporary_files_have_random_names() {
    let first = selected(None, AndroidStorageInput::Auto).unwrap().tempfile.display();
    let second = selected(None, AndroidStorageInput::Auto).unwrap().tempfile.display();
    assert_ne!(first, second);
    let name = first.strip_prefix("/data/local/tmp/").unwrap();
    let groups: Vec<usize> = name.split('-').map(|group| group.len()).collect();
    assert_eq!(groups, vec![8, 4, 4, 4, 12]);
    assert!(name.chars().all(|c| c == '-' || "0123456789abcdef".contains(c)));
    assert_eq!(&name[14..15], "4");
    assert!("89ab".contains(&name[19..20]));
}

#[test]
fn a_line_describes_a_device() {
    let device = parse_device_info("serial\tdevice key1:value1 key2:value2").unwrap();
    assert_eq!(device.serial, "serial");
    assert_eq!(device.info.get("key1").unwrap(), "value1");
    assert_eq!(device.info.get("key2").unwrap(), "value2");

    let device = parse_device_info("  s device a:b:c plain k: :v k:w").unwrap();
    assert_eq!(
        device.info.entries(),
        &vec![
            ("".to_string(), "v".to_string()),
            ("k".to_string(), "w".to_string()),
        ]
    );

    assert!(parse_device_info("").is_none());
    assert!(parse_device_info("serial").is_none());
    assert!(parse_device_info("serial\toffline").is_none());
    assert!(parse_device_info("List of devices attached").is_none());
}

#[test]
fn where_the_server_is() {
    assert_eq!(Host::default().connect(), "localhost:5037");
    let nowhere = Host { host: None, port: None };
    assert_eq!(nowhere.connect(), "localhost:5037");
    let elsewhere = Host {
        host: Some("10.0.0.1".to_string()),
        port: Some(0),
    };
    assert_eq!(elsewhere.connect(), "10.0.0.1:0");
}

#[test]
fn commands_for_the_server() {
    let host = Host::default();
    assert_eq!(
        steps(&host.execute_command("host:version", true, false)),
        vec!["> 000Chost:version", "< true false"]
    );
    assert_eq!(
        steps(&host.execute_host_command("kill", true, false)),
        vec!["> 0009host:kill", "< false true"]
    );
    assert_eq!(
        steps(&host.execute_command(&"x".repeat(65536), true, false)),
        vec!["! out of range integral type conversion attempted"]
    );
}

#[test]
fn storage_by_name() {
    let parse = |name: &str| name.parse::<AndroidStorageInput>();
    assert_eq!(parse("auto").unwrap(), AndroidStorageInput::Auto);
    assert_eq!(parse("app").unwrap(), AndroidStorageInput::App);
    assert_eq!(parse("internal").unwrap(), AndroidStorageInput::Internal);
    assert_eq!(parse("sdcard").unwrap(), AndroidStorageInput::Sdcard);
    assert!(matches!(parse("Auto"), Err(DeviceError::InvalidStorage)));
    assert!(matches!(parse(""), Err(DeviceError::InvalidStorage)));
    assert_eq!(AndroidStorageInput::default(), AndroidStorageInput::Auto);
}
