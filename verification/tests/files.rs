use forensic_adb::pull::{Pull, PullStep};
use forensic_adb::push::{read_event, PushAction, PushEvent, PushStep};
use forensic_adb::sync::{
    make_frame, read_capped, read_failure, read_metadata, ListStep, Listing,
};
use forensic_adb::walk::{
    append_components, AppendError, DirWalk, PullDirStep, TailComponent, WalkStep,
};
use forensic_adb::{
    AndroidStorageInput, Device, DeviceError, Exchange, Host, RemoteDirEntry, RemoteFileMetadata,
    RemoteMetadata, Result, SyncCommand, UnixPath,
};
use std::collections::BTreeMap;
use std::path::{Component, Path};

const FILE: u32 = 0o100660;
const DIR: u32 = 0o040770;
const LINK: u32 = 0o120777;

fn device() -> Device {
    Device::with_tempfile(
        Host::default(),
        "emu".to_string(),
        AndroidStorageInput::Auto,
        "temp",
    )
}

fn steps(script: &Vec<Exchange>) -> Vec<String> {
    script
        .iter()
        .map(|step| match step {
            Exchange::Write(bytes) => format!("> {}", String::from_utf8(bytes.clone()).unwrap()),
            Exchange::Response {
                has_output,
                has_length,
            } => format!("< {} {}", has_output, has_length),
            Exchange::TooLong(e) => format!("! {}", e),
        })
        .collect()
}

fn entry(mode: u32, size: u32, name: &str) -> Vec<u8> {
    let mut bytes = b"DENT".to_vec();
    bytes.extend_from_slice(&mode.to_le_bytes());
    bytes.extend_from_slice(&size.to_le_bytes());
    bytes.extend_from_slice(&[9, 9, 9, 9]);
    bytes.extend_from_slice(&(name.len() as u32).to_le_bytes());
    bytes.extend_from_slice(name.as_bytes());
    bytes
}

fn failure(message: &[u8]) -> Vec<u8> {
    make_frame(SyncCommand::Fail, message)
}

/// What a listing makes of a stream; nothing where the stream ends early or the
/// reader does not accept what it was given.
fn listed(mut listing: Listing, stream: &[u8]) -> Option<Result<Vec<RemoteDirEntry>>> {
    let mut rest = stream;
    loop {
        let n = listing.request();
        if rest.len() < n {
            return None;
        }
        let bytes = rest[..n].to_vec();
        rest = &rest[n..];
        if !listing.accepts(&bytes) {
            return None;
        }
        match listing.supply(bytes) {
            ListStep::Continue(next) => listing = next,
            ListStep::Done(r) => return Some(r),
        }
    }
}

/// What a pull receives from a stream, and how it ends.
fn received(stream: &[u8]) -> Option<(Vec<u8>, Result<()>)> {
    let mut pull = Pull::new();
    let mut rest = stream;
    let mut content = Vec::new();
    loop {
        let n = pull.request();
        if rest.len() < n {
            return None;
        }
        let bytes = rest[..n].to_vec();
        rest = &rest[n..];
        if !pull.accepts(&bytes) {
            return None;
        }
        match pull.supply(bytes) {
            PullStep::Continue(next) => pull = next,
            PullStep::Deliver(piece, next) => {
                content.extend_from_slice(&piece);
                pull = next;
            }
            PullStep::Done(r) => return Some((content, r)),
        }
    }
}

/// A device that plays its part in a push.
struct Script<'a> {
    existing: Vec<&'a str>,
    content: &'a [u8],
    reply: Vec<u8>,
    copy: Option<DeviceError>,
    log: Vec<String>,
    sent: Vec<u8>,
}

impl<'a> Script<'a> {
    fn new(existing: Vec<&'a str>, content: &'a [u8], reply: Vec<u8>) -> Script<'a> {
        Script {
            existing,
            content,
            reply,
            copy: None,
            log: Vec::new(),
            sent: Vec::new(),
        }
    }

    fn perform(&mut self, action: PushAction) -> PushEvent {
        match action {
            PushAction::Probe { path, run_as } => {
                self.log.push(format!("probe {} {}", path.display(), run_as));
                PushEvent::Exists(self.existing.contains(&path.display().as_str()))
            }
            PushAction::CreateDir(path) => {
                self.log.push(format!("create {}", path.display()));
                PushEvent::Done
            }
            PushAction::OpenUp(path) => {
                self.log.push(format!("open {}", path.display()));
                PushEvent::Done
            }
            PushAction::Connect(script) => {
                self.log.push("connect".to_string());
                self.log.extend(steps(&script));
                PushEvent::Done
            }
            PushAction::ReadPiece(most) => {
                let n = most.min(self.content.len());
                let piece = self.content[..n].to_vec();
                self.content = &self.content[n..];
                PushEvent::Piece(piece)
            }
            PushAction::Send(bytes) => {
                self.sent.extend_from_slice(&bytes);
                PushEvent::Done
            }
            PushAction::Clock => PushEvent::Time(0x2_6543_2100),
            PushAction::Read(n) => {
                let rest = self.reply.split_off(n);
                PushEvent::Bytes(std::mem::replace(&mut self.reply, rest))
            }
            PushAction::Copy { from, to } => {
                self.log.push(format!("copy {} {}", from.display(), to.display()));
                PushEvent::Copied(match self.copy.take() {
                    Some(e) => Err(e),
                    None => Ok(()),
                })
            }
            PushAction::Remove(path) => {
                self.log.push(format!("remove {}", path.display()));
                PushEvent::Done
            }
        }
    }

    fn run(&mut self, device: &Device, dest: &str, mode: u32) -> Result<()> {
        let mut step = device.push(&UnixPath::new(dest), mode);
        loop {
            match step {
                PushStep::Over(r) => return r,
                PushStep::Next(push, action) => step = push.advance(self.perform(action)),
            }
        }
    }
}

#[test]
fn device_push_pull_text_file() {
    let content = "test";
    let mut script = Script::new(vec!["/sdcard/mozdevice"], content.as_bytes(), b"OKAY".to_vec());
    script
        .run(&device(), "/sdcard/mozdevice/foo.txt", 0o777)
        .expect("file has been pushed");
    assert_eq!(
        script.log,
        vec![
            "probe /sdcard/mozdevice false",
            "connect",
            "> 0012host:transport:emu",
            "< false true",
            "> 0005sync:",
            "< false true",
            "> SEND\u{1d}\0\0\0/sdcard/mozdevice/foo.txt,511",
        ]
    );
    assert_eq!(script.sent, b"DATA\x04\0\0\0testDONE\x00\x21\x43\x65");

    // And as second step pull it off the device.
    let (pulled, end) = received(&script.sent).unwrap();
    end.expect("file has been pulled");
    assert_eq!(pulled, content.as_bytes());
}

#[test]
fn device_push_pull_large_binary_file() {
    let mut content = Vec::new();

    // Needs to be larger than 64kB to test multiple chunks.
    for i in 0..100000u32 {
        content.push(b'0' + (i % 10) as u8);
    }

    let mut script = Script::new(vec!["/sdcard"], &content, b"OKAY".to_vec());
    script
        .run(&device(), "/sdcard/foo.binary", 0o777)
        .expect("large file has been pushed");
    assert_eq!(script.sent.len(), 100000 + 4 * 8 + 8);

    let (buffer, end) = received(&script.sent).unwrap();
    end.expect("large binary file has been pulled");
    assert_eq!(buffer, content);
}

#[test]
fn missing_directories_are_created_and_opened_up() {
    let mut script = Script::new(vec!["/sdcard"], b"", b"OKAY".to_vec());
    script.run(&device(), "/sdcard/a/b/c/file", 0o644).unwrap();
    assert_eq!(
        script.log[..6],
        [
            "probe /sdcard/a/b/c false",
            "probe /sdcard/a/b false",
            "probe /sdcard/a false",
            "probe /sdcard false",
            "create /sdcard/a/b/c",
            "open /sdcard/a",
        ]
    );
    assert_eq!(script.sent, b"DONE\x00\x21\x43\x65");

    let mut script = Script::new(vec![], b"", b"OKAY".to_vec());
    script.run(&device(), "/a/file", 0o644).unwrap();
    assert_eq!(
        script.log[..4],
        ["probe /a false", "probe / false", "create /a", "open /"]
    );

    let mut script = Script::new(vec![], b"", b"OKAY".to_vec());
    script.run(&device(), "/", 0o644).unwrap();
    assert_eq!(script.log[0], "connect");
}

#[test]
fn a_refused_push_tells_why() {
    let mut reply = b"FAIL".to_vec();
    reply.extend_from_slice(&[4, 0, 0, 0]);
    reply.extend_from_slice(b"full, really");
    let mut script = Script::new(vec!["/sdcard"], b"x", reply);
    let error = script.run(&device(), "/sdcard/x", 0o644).unwrap_err();
    assert_eq!(error.message(), "adb error: full");
    assert!(!script.log.iter().any(|line| line.starts_with("remove")));
}

#[test]
fn a_long_failure_message_is_cut() {
    let mut reply = b"FAIL".to_vec();
    reply.extend_from_slice(&[0xff, 0xff, 0, 0]);
    reply.extend_from_slice(&vec![b'x'; 0x8000]);
    let mut script = Script::new(vec!["/sdcard"], b"x", reply);
    let error = script.run(&device(), "/sdcard/x", 0o644).unwrap_err();
    assert_eq!(error.message(), format!("adb error: {}", "x".repeat(0x8000)));
}

#[test]
fn an_unknown_word_removes_what_was_sent() {
    let mut script = Script::new(vec!["/sdcard"], b"x", b"WHAT".to_vec());
    let error = script.run(&device(), "/sdcard/x", 0o644).unwrap_err();
    assert_eq!(error.message(), "FAIL (unknown)");
    assert_eq!(script.log.last().unwrap(), "remove /sdcard/x");
}

#[test]
fn a_file_of_the_package_goes_through_the_temporary_file() {
    let mut device = device();
    device.run_as_package = Some("org.x".to_string());
    let dest = "/data/data/org.x/files/a";

    let mut script = Script::new(vec!["/data/data/org.x/files"], b"x", b"OKAY".to_vec());
    script.run(&device, dest, 0o600).unwrap();
    assert_eq!(
        script.log,
        vec![
            "probe /data/data/org.x/files true",
            "connect",
            "> 0012host:transport:emu",
            "< false true",
            "> 0005sync:",
            "< false true",
            "> SEND\u{18}\0\0\0/data/local/tmp/temp,384",
            "copy /data/local/tmp/temp /data/data/org.x/files/a",
            "remove /data/local/tmp/temp",
        ]
    );

    let mut script = Script::new(vec!["/data/data/org.x/files"], b"x", b"OKAY".to_vec());
    script.copy = Some(DeviceError::Adb("adb error: closed".to_string()));
    let error = script.run(&device, dest, 0o600).unwrap_err();
    assert_eq!(error.message(), "adb error: closed");
    assert_eq!(script.log.last().unwrap(), "remove /data/local/tmp/temp");

    let mut script = Script::new(
        vec!["/data/data/org.x/files"],
        b"x",
        b"FAIL\x01\0\0\0\xff".to_vec(),
    );
    let error = script.run(&device, dest, 0o600).unwrap_err();
    assert_eq!(error.message(), "adb error was not utf-8");
    assert_eq!(script.log.last().unwrap(), "remove /data/local/tmp/temp");
}

#[test]
fn actions_that_are_shell_commands() {
    let mut device = device();
    device.run_as_package = Some("org.x".to_string());
    let mine = || UnixPath::new("/data/data/org.x/a");
    let other = || UnixPath::new("/sdcard/a");
    let command = |action: PushAction| {
        device
            .script_of(&action)
            .map(|script| steps(&script.unwrap())[2][6..].to_string())
    };
    assert_eq!(
        command(PushAction::Probe { path: other(), run_as: false }).unwrap(),
        "shell:ls /sdcard/a"
    );
    assert_eq!(
        command(PushAction::Probe { path: mine(), run_as: true }).unwrap(),
        "shell:run-as org.x ls /data/data/org.x/a"
    );
    assert_eq!(
        command(PushAction::CreateDir(other())).unwrap(),
        "shell:mkdir -p /sdcard/a"
    );
    assert_eq!(
        command(PushAction::OpenUp(mine())).unwrap(),
        "shell:run-as org.x chmod  -R 777 /data/data/org.x/a"
    );
    assert_eq!(
        command(PushAction::Copy { from: other(), to: mine() }).unwrap(),
        "shell:run-as org.x cp -aR /sdcard/a /data/data/org.x/a"
    );
    assert_eq!(command(PushAction::Remove(other())).unwrap(), "shell:rm -rf /sdcard/a");
    assert_eq!(command(PushAction::Clock), None);
    assert_eq!(command(PushAction::Read(4)), None);
    assert_eq!(command(PushAction::Send(vec![1])), None);

    let copy = PushAction::Copy { from: other(), to: mine() };
    assert!(matches!(
        self::device().script_of(&copy),
        Some(Err(DeviceError::MissingPackage))
    ));
}

#[test]
fn what_comes_of_a_shell_command() {
    let path = || UnixPath::new("/sdcard/a");
    let closed = || Err(DeviceError::Adb("closed".to_string()));
    let probe = PushAction::Probe { path: path(), run_as: false };
    assert!(matches!(
        read_event(&probe, Ok(b"/sdcard/a\n".to_vec())),
        Ok(PushEvent::Exists(true))
    ));
    assert!(matches!(
        read_event(&probe, Ok(b"ls: No such file or directory".to_vec())),
        Ok(PushEvent::Exists(false))
    ));
    assert!(matches!(read_event(&probe, closed()), Err(DeviceError::Adb(_))));
    let create = PushAction::CreateDir(path());
    assert!(matches!(read_event(&create, Ok(vec![])), Ok(PushEvent::Done)));
    assert!(matches!(read_event(&create, Ok(vec![0xff])), Err(DeviceError::Utf8(_))));
    assert!(matches!(read_event(&create, closed()), Err(DeviceError::Adb(_))));
    let copy = PushAction::Copy { from: path(), to: path() };
    assert!(matches!(read_event(&copy, Ok(vec![])), Ok(PushEvent::Copied(Ok(())))));
    assert!(matches!(
        read_event(&copy, closed()),
        Ok(PushEvent::Copied(Err(DeviceError::Adb(_))))
    ));
    let remove = PushAction::Remove(path());
    assert!(matches!(read_event(&remove, Ok(vec![])), Ok(PushEvent::Done)));
    assert!(matches!(read_event(&remove, closed()), Ok(PushEvent::Done)));
}

#[test]
fn a_pull_asks_for_the_file() {
    let (script, _) = device().pull(&UnixPath::new("/sdcard/a"));
    assert_eq!(
        steps(&script),
        vec![
            "> 0012host:transport:emu",
            "< false true",
            "> 0005sync:",
            "< false true",
            "> RECV\u{9}\0\0\0/sdcard/a",
        ]
    );
}

#[test]
fn device_pull_fails_for_missing_file() {
    let (content, end) = received(&failure(b"No such file or directory")).unwrap();
    let error = end.expect_err("missing file should not be pulled");
    assert_eq!(error.message(), "adb error: No such file or directory");
    assert!(content.is_empty());
}

#[test]
fn pulls_that_go_wrong() {
    let (content, end) = received(b"DATA\x02\0\0\0abWHAT").unwrap();
    assert_eq!(content, b"ab");
    assert_eq!(end.unwrap_err().message(), "FAIL (unknown)");
    let (_, end) = received(&failure(&[0xff])).unwrap();
    assert_eq!(end.unwrap_err().message(), "adb error was not utf-8");
    assert!(received(b"DATA\x02\0\0\0a").is_none());
    assert!(received(b"DATA\x01\0\x01\0").is_none());
    assert!(!Pull::new().accepts(&b"DA".to_vec()));
}

#[test]
fn the_largest_piece_is_received() {
    let mut stream = make_frame(SyncCommand::Data, &vec![7; 0x1_0000]);
    stream.extend_from_slice(b"DONE");
    let (content, end) = received(&stream).unwrap();
    end.unwrap();
    assert_eq!(content, vec![7; 0x1_0000]);
}

#[test]
fn lengths_are_capped() {
    assert_eq!(read_capped(&vec![5, 0, 0, 0], 10), 5);
    assert_eq!(read_capped(&vec![0, 1, 0, 0], 10), 10);
    assert_eq!(read_failure(&b"no".to_vec()).message(), "adb error: no");
}

#[test]
fn what_an_entry_is() {
    assert_eq!(read_metadata(DIR as usize, 1).unwrap(), RemoteMetadata::RemoteDir);
    assert_eq!(read_metadata(LINK as usize, 1).unwrap(), RemoteMetadata::RemoteSymlink);
    assert_eq!(
        read_metadata(FILE as usize, 12).unwrap(),
        RemoteMetadata::RemoteFile(RemoteFileMetadata {
            mode: 0b110110000,
            size: 12
        })
    );
    assert_eq!(
        read_metadata(0o160000, 1).unwrap_err().message(),
        "Invalid file mode 7"
    );
    assert_eq!(read_metadata(0, 1).unwrap_err().message(), "Invalid file mode 0");
}

#[test]
fn device_push_and_list_dir_flat() {
    let (script, listing) =
        device().list_dir_flat(&UnixPath::new("/sdcard/mozdevice"), 7, "prefix".to_string());
    assert_eq!(
        steps(&script),
        vec![
            "> 0012host:transport:emu",
            "< false true",
            "> 0005sync:",
            "< false true",
            "> LIST\u{11}\0\0\0/sdcard/mozdevice",
        ]
    );

    let mut stream = entry(DIR, 4096, ".");
    stream.extend(entry(DIR, 4096, ".."));
    stream.extend(entry(DIR, 4096, "bar"));
    stream.extend(entry(FILE, 4, "foo2.bar"));
    stream.extend(entry(FILE, 4, "foo1.bar"));
    stream.extend(b"DONE");
    let mut listings = listed(listing, &stream)
        .unwrap()
        .expect("to list_dir_flat");
    listings.sort();
    assert_eq!(
        listings,
        vec![
            RemoteDirEntry {
                depth: 7,
                metadata: RemoteMetadata::RemoteFile(RemoteFileMetadata {
                    mode: 0b110110000,
                    size: 4
                }),
                name: "prefix/foo1.bar".to_string(),
            },
            RemoteDirEntry {
                depth: 7,
                metadata: RemoteMetadata::RemoteFile(RemoteFileMetadata {
                    mode: 0b110110000,
                    size: 4
                }),
                name: "prefix/foo2.bar".to_string(),
            },
            RemoteDirEntry {
                depth: 7,
                metadata: RemoteMetadata::RemoteDir,
                name: "prefix/bar".to_string(),
            },
        ]
    );
}

#[test]
fn listings_that_go_wrong() {
    let fresh = || Listing::new(0, "".to_string());
    let message = |stream: &[u8]| listed(fresh(), stream).unwrap().unwrap_err().message();
    assert_eq!(message(b"WHAT"), "FAIL (unknown)");
    assert_eq!(message(&failure(b"denied")), "adb error: denied");
    assert_eq!(message(&failure(&[0xff])), "adb error was not utf-8");
    assert_eq!(message(&entry(0o010644, 0, "fifo")), "Invalid file mode 0");
    // The mode of the entries that are passed over does not matter.
    let mut stream = entry(0, 0, "..");
    stream.extend(b"DONE");
    assert_eq!(listed(fresh(), &stream).unwrap().unwrap(), vec![]);
    let mut stream = entry(FILE, 0, "x");
    *stream.last_mut().unwrap() = 0xff;
    assert!(matches!(listed(fresh(), &stream), Some(Err(DeviceError::Utf8(_)))));
    let mut head = entry(FILE, 0, "");
    head[16..20].copy_from_slice(&[1, 0, 1, 0]);
    assert!(listed(fresh(), &head).is_none());
}

/// The directories of a device, each with its entries as they are sent.
fn tree() -> BTreeMap<String, Vec<u8>> {
    let mut tree = BTreeMap::new();
    let mut top = entry(DIR, 0, ".");
    top.extend(entry(FILE, 8, "foo1.bar"));
    top.extend(entry(DIR, 0, "bar"));
    top.extend(entry(FILE, 8, "foo2.bar"));
    tree.insert("/sdcard/mozdevice".to_string(), top);
    let mut bar = entry(FILE, 12, "foo3.bar");
    bar.extend(entry(DIR, 0, "more"));
    tree.insert("/sdcard/mozdevice/bar".to_string(), bar);
    tree.insert("/sdcard/mozdevice/bar/more".to_string(), entry(FILE, 17, "foo3.bar"));
    tree
}

fn walked(device: &Device, src: &UnixPath) -> (Vec<RemoteDirEntry>, Vec<String>) {
    let tree = tree();
    let mut walk = device.list_dir(src);
    let mut visited = Vec::new();
    loop {
        let item = walk.directory();
        let (_, listing) = device.list_dir_flat(&item.path, item.depth, item.prefix.clone());
        let mut stream = tree[&item.path.display()].clone();
        stream.extend(b"DONE");
        visited.push(item.path.display());
        match walk.accept(listed(listing, &stream).unwrap().unwrap()) {
            WalkStep::List(next) => walk = next,
            WalkStep::Over(listings) => return (listings, visited),
        }
    }
}

fn file(depth: usize, name: &str, size: usize) -> RemoteDirEntry {
    RemoteDirEntry {
        depth,
        name: name.to_string(),
        metadata: RemoteMetadata::RemoteFile(RemoteFileMetadata {
            mode: 0b110110000,
            size,
        }),
    }
}

fn directory(depth: usize, name: &str) -> RemoteDirEntry {
    RemoteDirEntry {
        depth,
        name: name.to_string(),
        metadata: RemoteMetadata::RemoteDir,
    }
}

#[test]
fn device_push_and_list_dir() {
    let files = ["foo1.bar", "foo2.bar", "bar/foo3.bar", "bar/more/foo3.bar"];
    let remote_root_path = UnixPath::new("/sdcard/mozdevice");
    for file in files.iter() {
        let dest = device()
            .push_dir(&remote_root_path, true, &tail(file))
            .expect("to push_dir")
            .unwrap();
        assert_eq!(dest.display(), format!("/sdcard/mozdevice/{}", file));
    }
    let (mut listings, visited) = walked(&device(), &remote_root_path);
    assert_eq!(
        visited,
        vec![
            "/sdcard/mozdevice",
            "/sdcard/mozdevice/bar",
            "/sdcard/mozdevice/bar/more"
        ]
    );
    listings.sort();
    assert_eq!(
        listings,
        vec![
            file(0, "foo1.bar", 8),
            file(0, "foo2.bar", 8),
            directory(0, "bar"),
            file(1, "bar/foo3.bar", 12),
            directory(1, "bar/more"),
            file(2, "bar/more/foo3.bar", 17),
        ]
    );
}

fn going_on(step: WalkStep) -> DirWalk {
    match step {
        WalkStep::List(walk) => walk,
        WalkStep::Over(listings) => panic!("{:?}", listings),
    }
}

#[test]
fn the_last_directory_is_walked_first() {
    let walk = device().list_dir(&UnixPath::new("/a"));
    assert_eq!(walk.directory().path.display(), "/a");
    assert_eq!(walk.directory().depth, 0);
    assert_eq!(walk.directory().prefix, "");
    let walk = going_on(walk.accept(vec![directory(0, "x"), directory(0, "y")]));
    assert_eq!(walk.directory().path.display(), "/a/y");
    assert_eq!(walk.directory().depth, 1);
    assert_eq!(walk.directory().prefix, "y");
    let walk = going_on(walk.accept(vec![]));
    assert_eq!(walk.directory().path.display(), "/a/x");
    match walk.accept(vec![file(1, "x/f", 3)]) {
        WalkStep::Over(listings) => assert_eq!(
            listings,
            vec![directory(0, "x"), directory(0, "y"), file(1, "x/f", 3)]
        ),
        WalkStep::List(walk) => panic!("{:?}", walk),
    }
}

#[test]
fn the_depth_of_an_entry_is_the_number_of_slashes_in_its_name() {
    let (entries, visited) = walked(&device(), &UnixPath::new("/sdcard/mozdevice"));
    let mut names: Vec<&String> = entries.iter().map(|entry| &entry.name).collect();
    names.sort();
    names.dedup();
    assert_eq!(names.len(), entries.len());

    let mut directories = 0;
    for entry in entries {
        assert_eq!(entry.depth, entry.name.matches('/').count());
        if entry.metadata == RemoteMetadata::RemoteDir {
            directories += 1;
            assert!(visited.contains(&format!("/sdcard/mozdevice/{}", entry.name)));
        }
    }
    assert_eq!(visited.len(), directories + 1);
}

#[test]
fn device_push_and_pull_dir() {
    let device = device();
    let src = UnixPath::new("/sdcard/mozdevice");
    let (mut entries, _) = walked(&device, &src);
    entries.push(RemoteDirEntry {
        depth: 0,
        name: "link".to_string(),
        metadata: RemoteMetadata::RemoteSymlink,
    });
    let plan: Vec<String> = device
        .pull_dir(&src, &entries)
        .iter()
        .map(|step| match step {
            PullDirStep::CreateDir(name) => format!("mkdir {}", name),
            PullDirStep::PullFile(path, name) => format!("{} -> {}", path.display(), name),
        })
        .collect();
    for file in ["foo1.bar", "foo2.bar", "bar/foo3.bar", "bar/more/foo3.bar"] {
        let dest = device.push_dir(&src, true, &tail(file)).expect("to push_dir");
        assert!(plan.contains(&format!("{} -> {}", dest.unwrap().display(), file)));
    }
    assert_eq!(
        plan,
        vec![
            "/sdcard/mozdevice/foo1.bar -> foo1.bar",
            "mkdir bar",
            "/sdcard/mozdevice/foo2.bar -> foo2.bar",
            "/sdcard/mozdevice/bar/foo3.bar -> bar/foo3.bar",
            "mkdir bar/more",
            "/sdcard/mozdevice/bar/more/foo3.bar -> bar/more/foo3.bar",
        ]
    );
}

/// The components of a path on this machine.
fn tail(path: &str) -> Vec<TailComponent> {
    Path::new(path)
        .components()
        .map(|component| match component {
            Component::Normal(segment) => normal(segment.to_str().unwrap()),
            _ => TailComponent::Special,
        })
        .collect()
}

#[test]
fn a_tree_is_received_from_where_it_was_sent() {
    let files = ["foo1.bar", "foo2.bar", "bar/foo3.bar", "bar/more/foo3.bar"];
    let device = device();
    let remote = UnixPath::new("/sdcard/mozdevice");

    // Each file holds its own name.
    let mut stored = BTreeMap::new();
    for name in files {
        let dest = device.push_dir(&remote, true, &tail(name)).unwrap().unwrap();
        let mut script = Script::new(vec!["/sdcard"], name.as_bytes(), b"OKAY".to_vec());
        script.run(&device, &dest.display(), 0o777).unwrap();
        stored.insert(dest.display(), script.sent);
    }

    let (entries, _) = walked(&device, &remote);
    let mut made: Vec<String> = Vec::new();
    let mut pulled: Vec<String> = Vec::new();
    for step in device.pull_dir(&remote, &entries) {
        match step {
            PullDirStep::CreateDir(name) => made.push(name),
            PullDirStep::PullFile(path, name) => {
                if let Some((parent, _)) = name.rsplit_once('/') {
                    assert!(made.contains(&parent.to_string()));
                }
                let (content, end) = received(&stored[&path.display()]).unwrap();
                end.unwrap();
                assert_eq!(content, name.as_bytes());
                pulled.push(name);
            }
        }
    }
    pulled.sort();
    assert_eq!(
        pulled,
        vec!["bar/foo3.bar", "bar/more/foo3.bar", "foo1.bar", "foo2.bar"]
    );
    assert_eq!(made, vec!["bar", "bar/more"]);
}

fn normal(name: &str) -> TailComponent {
    TailComponent::Normal(name.to_string())
}

#[test]
fn components_are_appended() {
    let base = UnixPath::new("/sdcard/mozdevice");
    let tail = vec![normal("bar"), normal("more"), normal("foo3.bar")];
    let whole = append_components(&base, &tail).unwrap();
    assert_eq!(whole.display(), "/sdcard/mozdevice/bar/more/foo3.bar");
    assert!(whole.starts_with(&base));
    assert_eq!(append_components(&base, &Vec::new()).unwrap().display(), base.display());

    let wrong = append_components(&base, &vec![TailComponent::NotUtf8, TailComponent::Special]);
    assert_eq!(wrong.unwrap_err(), AppendError::NotUtf8);
    let wrong = append_components(&base, &vec![normal("a"), TailComponent::Special]);
    assert_eq!(wrong.unwrap_err().message(), "Unexpected path component");
    assert_eq!(
        AppendError::NotUtf8.message(),
        "Could not represent path segment as UTF-8"
    );
}

#[test]
fn only_files_of_a_tree_are_sent() {
    let device = device();
    let base = UnixPath::new("/sdcard");
    let sent = device.push_dir(&base, true, &vec![normal("a")]).unwrap();
    assert_eq!(sent.unwrap().display(), "/sdcard/a");
    assert!(device.push_dir(&base, false, &vec![normal("a")]).unwrap().is_none());
    assert!(device
        .push_dir(&base, false, &vec![TailComponent::Special])
        .unwrap()
        .is_none());
    assert_eq!(
        device.push_dir(&base, true, &vec![TailComponent::Special]).unwrap_err(),
        AppendError::Unexpected
    );
}
