//! Tests of the file system server, the driver's restarts and the emulator command.

use fuchsia::emulator::ShowCommand;
use fuchsia::fxfs_server::{AdminRequest, FxfsServer, Info, QueryRequest, ServerAction};
use fuchsia::lowpan::{device_path, radio_path, AfterRun, RestartPolicy, WrongDeviceCount};
use fuchsia::text::{join, starts_with};

#[test]
fn show_command_names_an_emulator() {
    assert_eq!(ShowCommand::from_name(None).name, "fuchsia-emulator");
    assert_eq!(ShowCommand::from_name(Some("fido".to_owned())).name, "fido");
    assert_eq!(ShowCommand::default(), ShowCommand { name: String::new() });
}

#[test]
fn file_system_reports_its_size() {
    let info = Info { total_bytes: 16384, used_bytes: 512, block_size: 4096 };
    let server = FxfsServer::new();
    let reported = server.handle_query(QueryRequest::GetInfo, info, 7, 255);
    assert_eq!(reported, info.to_filesystem_info(7, 255));
    assert_eq!(reported.total_bytes, 16384);
    assert_eq!(reported.used_bytes, 512);
    assert_eq!(reported.total_nodes, i64::MAX as u64);
    assert_eq!(reported.used_nodes, 7);
    assert_eq!(reported.block_size, 4096);
    assert_eq!(reported.max_filename_size, 255);
    assert_eq!(reported.fs_type, 0x73667866);
    let name: Vec<u8> = reported.name.iter().map(|c| *c as u8).collect();
    assert_eq!(&name[..4], "fxfs".as_bytes());
    assert_eq!(&name[4..], &[0; 28]);
}

#[test]
fn shutdown_closes_the_file_system_once() {
    let mut server = FxfsServer::new();
    assert_eq!(
        server.finish(),
        vec![ServerAction::TerminateVolume, ServerAction::CloseFilesystem]
    );
    let (actions, close) = server.handle_admin(AdminRequest::Shutdown);
    assert!(close);
    assert_eq!(
        actions,
        vec![
            ServerAction::ShutdownScope,
            ServerAction::TerminateVolume,
            ServerAction::CloseFilesystem,
            ServerAction::Respond,
        ]
    );
    assert!(server.closed);
    assert!(server.finish().is_empty());
}

#[test]
fn restarts_back_off_and_end() {
    let mut policy = RestartPolicy::new(8);
    let mut delays = Vec::new();
    while let AfterRun::Restart { delay } = policy.after_run(0) {
        delays.push(delay);
    }
    assert_eq!(delays, vec![1, 2, 4, 8, 16, 32, 60, 60]);
    assert_eq!(policy.after_run(4), AfterRun::GiveUp);
    // A long run resets the count.
    assert_eq!(policy.after_run(5), AfterRun::Restart { delay: 1 });
    assert_eq!(policy.attempt_count, 1);
    assert_eq!(policy.after_run(4), AfterRun::Restart { delay: 2 });
}

#[test]
fn no_restarts_without_attempts() {
    let mut policy = RestartPolicy::new(0);
    assert_eq!(policy.after_run(100), AfterRun::GiveUp);
    let mut late = RestartPolicy { max_auto_restarts: 100, attempt_count: 62 };
    assert_eq!(late.after_run(0), AfterRun::Restart { delay: 60 });
    assert_eq!(late.after_run(0), AfterRun::Restart { delay: 60 });
    assert_eq!(late.after_run(0), AfterRun::Restart { delay: 60 });
}

#[test]
fn radio_is_the_only_device() {
    assert_eq!(radio_path(None), "/dev/class/ot-radio");
    assert_eq!(radio_path(Some("/dev/radio".to_owned())), "/dev/radio");
    let dir = radio_path(None);
    assert_eq!(device_path(dir.clone(), None), Ok("/dev/class/ot-radio".to_owned()));
    assert_eq!(
        device_path(dir.clone(), Some(vec!["000".to_owned()])),
        Ok("/dev/class/ot-radio/000".to_owned())
    );
    assert_eq!(device_path(dir.clone(), Some(vec![])), Err(WrongDeviceCount { count: 0 }));
    assert_eq!(
        device_path(dir, Some(vec!["000".to_owned(), "001".to_owned()])),
        Err(WrongDeviceCount { count: 2 })
    );
}

#[test]
fn paths_are_joined_with_one_slash() {
    assert_eq!(join("a", "b/c"), "a/b/c");
    assert_eq!(join("a/", "b"), "a/b");
    assert_eq!(join("", "b"), "b");
    assert_eq!(join("a", "/b"), "/b");
    assert!(starts_with("Error: x", "Error: "));
    assert!(starts_with("x", ""));
    assert!(!starts_with("Err", "Error: "));
}
