use mysticeti_core::committee::Committee;
use mysticeti_core::orchestrator::error::CloudProviderError;
use mysticeti_core::orchestrator::gcp::{
    firewall_outcome, parse_ipv4, parse_octet, rule_exists_already, GcpClient, GcpInstanceRecord,
    Instance, InstanceError, Ipv4, USERNAME,
};
use mysticeti_core::orchestrator::settings::Settings;
use mysticeti_core::orchestrator::text::{contains_text, decimal_string, last_part_of};
use mysticeti_core::types::{BlockReference, StatementBlock};

fn client() -> GcpClient {
    GcpClient::new(Settings {
        testbed_id: "bench".to_string(),
        working_dir: "/data".to_string(),
        regions: vec!["us-west1-a".to_string(), "europe-west4-b".to_string()],
        specs: "n2-standard-8".to_string(),
        nvme: true,
    })
}

fn strings(list: &[&str]) -> Vec<String> {
    list.iter().map(|s| s.to_string()).collect()
}

fn machine() -> Instance {
    Instance {
        id: "bench-17".to_string(),
        region: "us-west1-a".to_string(),
        main_ip: Ipv4 { a: 10, b: 0, c: 0, d: 1 },
        tags: vec!["bench".to_string()],
        specs: "n2-standard-8".to_string(),
        status: "RUNNING".to_string(),
    }
}

fn record(name: Option<&str>, ip: Option<&str>, kind: Option<&str>, status: Option<&str>) -> GcpInstanceRecord {
    GcpInstanceRecord {
        name: name.map(|s| s.to_string()),
        nat_ip: ip.map(|s| s.to_string()),
        machine_type: kind.map(|s| s.to_string()),
        status: status.map(|s| s.to_string()),
    }
}

#[test]
fn firewall_rule_is_named_after_the_testbed() {
    assert_eq!(client().firewall_name(), "bench-firewall");
    assert_eq!(
        client().create_firewall_rule_arguments(),
        strings(&[
            "compute",
            "firewall-rules",
            "create",
            "bench-firewall",
            "--allow",
            "tcp,udp,icmp",
            "--source-ranges",
            "0.0.0.0/0",
            "--description",
            "Allow all traffic (used for benchmarks).",
            "--target-tags",
            "bench-firewall",
        ])
    );
}

#[test]
fn list_filters_by_testbed_and_zone() {
    assert_eq!(
        client().list_instances_arguments("us-west1-a"),
        strings(&[
            "compute",
            "instances",
            "list",
            "--format",
            "json",
            "--filter",
            "tags.items=bench AND zone:(us-west1-a)",
        ])
    );
}

#[test]
fn start_stop_and_delete_name_the_machine_and_its_zone() {
    assert_eq!(
        GcpClient::start_instance_arguments(&machine()),
        strings(&["compute", "instances", "start", "bench-17", "--zone", "us-west1-a"])
    );
    assert_eq!(
        GcpClient::stop_instance_arguments(&machine()),
        strings(&[
            "compute",
            "instances",
            "stop",
            "bench-17",
            "--zone",
            "us-west1-a",
            "--discard-local-ssd=true",
        ])
    );
    assert_eq!(
        GcpClient::delete_instance_arguments(&machine()),
        strings(&[
            "compute",
            "instances",
            "delete",
            "bench-17",
            "--zone",
            "us-west1-a",
            "--delete-disks",
            "all",
            "--quiet",
        ])
    );
}

#[test]
fn ssh_key_is_registered_for_the_testbed_user() {
    assert_eq!(USERNAME, "balaji");
    assert_eq!(
        GcpClient::register_ssh_public_key_arguments("ssh-ed25519 AAAA"),
        strings(&[
            "compute",
            "project-info",
            "add-metadata",
            "--metadata",
            "ssh-keys=balaji:ssh-ed25519 AAAA",
        ])
    );
}

#[test]
fn new_machines_are_named_after_the_testbed_and_a_number() {
    assert_eq!(client().instance_name(0), "bench-0");
    assert_eq!(client().instance_name(7), "bench-7");
    assert_eq!(client().instance_name(1200), "bench-1200");
    assert_eq!(client().instance_name(u16::MAX), "bench-65535");
    for n in [0u16, 9, 10, 99, 100, 101, 4096, 65535] {
        assert_eq!(decimal_string(n), format!("{}", n));
    }
}

#[test]
fn create_asks_for_the_image_the_disks_and_the_tags() {
    assert_eq!(
        client().create_instance_arguments("bench-17", "us-west1-a"),
        strings(&[
            "compute",
            "instances",
            "create",
            "bench-17",
            "--image-family",
            "ubuntu-2004-lts",
            "--image-project",
            "ubuntu-os-cloud",
            "--boot-disk-size",
            "200GB",
            "--local-ssd",
            "interface=nvme,size=375GB",
            "--local-ssd",
            "interface=nvme,size=375GB",
            "--machine-type",
            "n2-standard-8",
            "--zone",
            "us-west1-a",
            "--tags",
            "bench,bench-firewall",
            "--format",
            "json",
        ])
    );
}

#[test]
fn firewall_failure_is_passed_over_when_the_rule_exists() {
    assert!(firewall_outcome(true, "").is_ok());
    assert!(firewall_outcome(true, "whatever went wrong").is_ok());
    assert!(firewall_outcome(false, "ERROR: The resource 'bench-firewall' already exists").is_ok());
    assert!(firewall_outcome(false, "ERROR: THE RESOURCE ALREADY EXISTS.").is_ok());
    match firewall_outcome(false, "ERROR: quota exceeded") {
        Err(CloudProviderError::UnexpectedResponse(message)) => {
            assert_eq!(message, "Failed to create firewall rule: ERROR: quota exceeded")
        }
        other => panic!("unexpected outcome {:?}", other),
    }
    assert!(firewall_outcome(false, "already  exists").is_err());
    assert!(rule_exists_already("it already exists"));
    assert!(!rule_exists_already("it Already Exists"));
}

#[test]
fn text_search_finds_what_is_there() {
    assert!(contains_text("abc", ""));
    assert!(contains_text("", ""));
    assert!(!contains_text("", "a"));
    assert!(contains_text("abcabd", "abd"));
    assert!(contains_text("abcabd", "abc"));
    assert!(!contains_text("abcabd", "abe"));
    assert!(!contains_text("ab", "abc"));
    assert!(contains_text("größe", "öß"));
}

#[test]
fn last_part_follows_the_last_divider() {
    assert_eq!(last_part_of("zones/us-west1-a/machineTypes/n2-standard-8", '/'), "n2-standard-8");
    assert_eq!(last_part_of("n2-standard-8", '/'), "n2-standard-8");
    assert_eq!(last_part_of("a/b/", '/'), "");
    assert_eq!(last_part_of("", '/'), "");
    assert_eq!(last_part_of("/", '/'), "");
}

#[test]
fn octets_are_numbers_below_256_without_leading_zeros() {
    assert_eq!(parse_octet("0"), Some(0));
    assert_eq!(parse_octet("7"), Some(7));
    assert_eq!(parse_octet("42"), Some(42));
    assert_eq!(parse_octet("255"), Some(255));
    assert_eq!(parse_octet("256"), None);
    assert_eq!(parse_octet("999"), None);
    assert_eq!(parse_octet("1000"), None);
    assert_eq!(parse_octet(""), None);
    assert_eq!(parse_octet("00"), None);
    assert_eq!(parse_octet("07"), None);
    assert_eq!(parse_octet("1a"), None);
    assert_eq!(parse_octet("-1"), None);
    assert_eq!(parse_octet("+1"), None);
}

#[test]
fn addresses_are_four_octets_divided_by_dots() {
    assert_eq!(parse_ipv4("0.0.0.0"), Some(Ipv4 { a: 0, b: 0, c: 0, d: 0 }));
    assert_eq!(parse_ipv4("34.82.10.255"), Some(Ipv4 { a: 34, b: 82, c: 10, d: 255 }));
    for bad in [
        "", "1", "1.2", "1.2.3", "1.2.3.4.5", "1.2.3.", ".1.2.3", "1..2.3", "1.2.3.256", "01.2.3.4",
        "1.2.3.4 ", "a.b.c.d", "1,2,3,4", "...",
    ] {
        assert_eq!(parse_ipv4(bad), None, "{bad}");
    }
}

#[test]
fn addresses_at_the_limits() {
    assert_eq!(parse_ipv4("255.255.255.255"), Some(Ipv4 { a: 255, b: 255, c: 255, d: 255 }));
    assert_eq!(parse_ipv4("256.1.1.1"), None);
    assert_eq!(parse_ipv4("1.2.3.04"), None);
    assert_eq!(parse_ipv4("1.1.1.1."), None);
    assert_eq!(parse_ipv4("10.0.0.1"), Some(Ipv4 { a: 10, b: 0, c: 0, d: 1 }));
}

#[test]
fn description_of_a_running_machine_is_read() {
    let description = record(
        Some("bench-17"),
        Some("34.82.10.5"),
        Some("https://www.googleapis.com/compute/v1/projects/p/zones/us-west1-a/machineTypes/n2-standard-8"),
        Some("RUNNING"),
    );
    let instance = client().make_instance("us-west1-a".to_string(), &description).unwrap();
    assert_eq!(instance.id, "bench-17");
    assert_eq!(instance.region, "us-west1-a");
    assert_eq!(instance.main_ip, Ipv4 { a: 34, b: 82, c: 10, d: 5 });
    assert_eq!(instance.tags, vec!["bench".to_string()]);
    assert_eq!(instance.specs, "n2-standard-8");
    assert_eq!(instance.status, "RUNNING");
}

#[test]
fn stopped_machine_gets_the_null_address() {
    let description = record(Some("bench-17"), None, Some("n2-standard-8"), Some("TERMINATED"));
    let instance = client().make_instance("r".to_string(), &description).unwrap();
    assert_eq!(instance.main_ip, Ipv4 { a: 0, b: 0, c: 0, d: 0 });
    assert_eq!(instance.specs, "n2-standard-8");
}

#[test]
fn first_fault_of_a_description_is_reported() {
    let c = client();
    let make = |r: GcpInstanceRecord| c.make_instance("r".to_string(), &r).err();
    assert_eq!(make(record(None, Some("x"), None, None)), Some(InstanceError::MissingName));
    assert_eq!(make(record(Some("n"), Some("1.2.3"), None, None)), Some(InstanceError::InvalidIp));
    assert_eq!(make(record(Some("n"), Some("1.2.3.4"), None, None)), Some(InstanceError::MissingType));
    assert_eq!(make(record(Some("n"), None, Some("t"), None)), Some(InstanceError::MissingStatus));
}

#[test]
fn blocks_need_parents_by_a_quorum_unless_they_are_genesis() {
    let committee = Committee::new(4).unwrap();
    let parent = |a: u64, digest: u64| BlockReference::new(a, 1, digest);
    let block = |round: u64, parents: Vec<BlockReference>| StatementBlock::new(0, round, 1, parents, vec![]);
    assert!(committee.is_connected(&block(0, vec![])));
    assert!(!committee.is_connected(&block(2, vec![])));
    assert!(!committee.is_connected(&block(2, vec![parent(0, 1), parent(1, 1)])));
    assert!(committee.is_connected(&block(2, vec![parent(0, 1), parent(1, 1), parent(3, 1)])));
    // two blocks of one authority count once, and strangers do not count
    assert!(!committee.is_connected(&block(2, vec![parent(0, 1), parent(0, 2), parent(1, 1)])));
    assert!(!committee.is_connected(&block(2, vec![parent(0, 1), parent(1, 1), parent(4, 1)])));
}
