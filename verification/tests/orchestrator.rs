use mysticeti_core::orchestrator::cli::{
    parse_duration, select_faults, select_load, DurationError, FaultsType, Load, LoadType,
};
use mysticeti_core::orchestrator::gcp::GcpClient;
use mysticeti_core::orchestrator::settings::Settings;

fn settings(nvme: bool) -> Settings {
    Settings {
        testbed_id: "bench".to_string(),
        working_dir: "/home/node/data".to_string(),
        regions: vec!["us-west1-a".to_string()],
        specs: "n2-standard-8".to_string(),
        nvme,
    }
}

#[test]
fn mount_commands_name_the_drive_and_the_directory() {
    let client = GcpClient::new(settings(true));
    assert_eq!(
        client.nvme_mount_command(),
        vec![
            "(sudo mkfs.ext4 -E nodiscard /dev/nvme0n1 || true)".to_string(),
            "(sudo mount /dev/nvme0n1 /home/node/data || true)".to_string(),
            "sudo chmod 777 -R /home/node/data".to_string(),
        ]
    );
}

#[test]
fn unmount_command_names_the_directory() {
    let client = GcpClient::new(settings(false));
    assert_eq!(client.nvme_unmount_command(), vec!["(sudo umount /home/node/data || true)".to_string()]);
}

#[test]
fn setup_commands_follow_the_nvme_setting() {
    let with = GcpClient::new(settings(true));
    assert_eq!(with.instance_setup_commands(), with.nvme_mount_command());
    let without = GcpClient::new(settings(false));
    assert_eq!(without.instance_setup_commands(), without.nvme_unmount_command());
}

#[test]
fn durations_are_whole_seconds() {
    assert_eq!(parse_duration("60"), Ok(60));
    assert_eq!(parse_duration("0"), Ok(0));
    assert_eq!(parse_duration("+15"), Ok(15));
    assert_eq!(parse_duration("0600"), Ok(600));
    assert_eq!(parse_duration("18446744073709551615"), Ok(u64::MAX));
}

#[test]
fn durations_that_are_refused() {
    assert_eq!(parse_duration(""), Err(DurationError::Empty));
    assert_eq!(parse_duration("+"), Err(DurationError::InvalidDigit));
    assert_eq!(parse_duration("-5"), Err(DurationError::InvalidDigit));
    assert_eq!(parse_duration("1.5"), Err(DurationError::InvalidDigit));
    assert_eq!(parse_duration("12s"), Err(DurationError::InvalidDigit));
    assert_eq!(parse_duration(" 12"), Err(DurationError::InvalidDigit));
    assert_eq!(parse_duration("１２"), Err(DurationError::InvalidDigit));
    assert_eq!(parse_duration("18446744073709551616"), Err(DurationError::Overflow));
    assert_eq!(parse_duration("99999999999999999999999"), Err(DurationError::Overflow));
}

#[test]
fn durations_agree_with_the_standard_parser() {
    for text in ["7", "+7", "007", "", "+", "x", "7x", "18446744073709551615", "18446744073709551616"] {
        assert_eq!(parse_duration(text).ok(), text.parse::<u64>().ok());
    }
}

#[test]
fn empty_fixed_load_falls_back_to_the_default() {
    match select_load(Load::FixedLoad { loads: vec![] }) {
        LoadType::Fixed(loads) => assert_eq!(loads, vec![200]),
        LoadType::Search { .. } => panic!("fixed load expected"),
    }
    match select_load(Load::FixedLoad { loads: vec![50, 100] }) {
        LoadType::Fixed(loads) => assert_eq!(loads, vec![50, 100]),
        LoadType::Search { .. } => panic!("fixed load expected"),
    }
    match select_load(Load::Search { starting_load: 250, max_iterations: 5 }) {
        LoadType::Search { starting_load, max_iterations } => {
            assert_eq!(starting_load, 250);
            assert_eq!(max_iterations, 5);
        }
        LoadType::Fixed(_) => panic!("search expected"),
    }
}

#[test]
fn faults_recover_only_when_asked_and_present() {
    assert_eq!(select_faults(false, 0, 60), FaultsType::Permanent { faults: 0 });
    assert_eq!(select_faults(false, 2, 60), FaultsType::Permanent { faults: 2 });
    assert_eq!(select_faults(true, 0, 60), FaultsType::Permanent { faults: 0 });
    assert_eq!(select_faults(true, 2, 60), FaultsType::CrashRecovery { max_faults: 2, interval: 60 });
}
