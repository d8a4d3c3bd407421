//! The Google Cloud client: which commands it sends through the `gcloud`
//! tool, and how it reads what comes back.

use crate::orchestrator::error::CloudProviderError;
use crate::orchestrator::settings::Settings;
use crate::orchestrator::text::{
    contains_text, decimal_string, decimal_text, last_part, last_part_of, last_part_start,
    lemma_last_part_unique, occurs_in, texts,
};
use vstd::prelude::*;
use vstd::string::{StrSliceExecFns, StringExecFns};

verus! {

/// A client for Google Cloud, driven through the `gcloud` tool.
pub struct GcpClient {
    /// The settings of the testbed.
    settings: Settings,
}

/// An address of four numbers below 256.
#[derive(Clone, Copy, Debug, PartialEq, Eq, Structural)]
pub struct Ipv4 {
    pub a: u8,
    pub b: u8,
    pub c: u8,
    pub d: u8,
}

/// A machine of the testbed.
#[derive(Debug)]
pub struct Instance {
    /// The name the provider knows the machine by.
    pub id: String,
    /// The region the machine runs in.
    pub region: String,
    /// The public address of the machine.
    pub main_ip: Ipv4,
    /// The testbeds the machine belongs to.
    pub tags: Vec<String>,
    /// The machine type.
    pub specs: String,
    /// The status the provider reports.
    pub status: String,
}

/// What the client reads of the provider's description of a machine.
pub struct GcpInstanceRecord {
    /// The entry `name`.
    pub name: Option<String>,
    /// The entry `natIP` of the first access configuration of the first
    /// network interface.
    pub nat_ip: Option<String>,
    /// The entry `machineType`.
    pub machine_type: Option<String>,
    /// The entry `status`.
    pub status: Option<String>,
}

/// Why a description is not that of a machine.
#[derive(Clone, Copy, Debug, PartialEq, Eq, Structural)]
pub enum InstanceError {
    /// The description names no machine.
    MissingName,
    /// The address is not four numbers below 256 divided by dots.
    InvalidIp,
    /// The description has no machine type.
    MissingType,
    /// The description has no status.
    MissingStatus,
}

/// The user that the machines are set up for.
pub const USERNAME: &'static str = "balaji";

/// The first NVMe drive of an instance.
pub open spec fn drive() -> Seq<char> {
    "nvme0n1"@
}

/// The commands that format the first NVMe drive, mount it on `directory`
/// and open the directory to everyone.
pub open spec fn mount_commands(directory: Seq<char>) -> Seq<Seq<char>> {
    seq![
        "(sudo mkfs.ext4 -E nodiscard /dev/"@ + drive() + " || true)"@,
        "(sudo mount /dev/"@ + drive() + " "@ + directory + " || true)"@,
        "sudo chmod 777 -R "@ + directory,
    ]
}

/// The command that unmounts whatever is mounted on `directory`.
pub open spec fn unmount_commands(directory: Seq<char>) -> Seq<Seq<char>> {
    seq!["(sudo umount "@ + directory + " || true)"@]
}

/// The name of the firewall rule of a testbed.
pub open spec fn firewall_text(testbed: Seq<char>) -> Seq<char> {
    testbed + "-firewall"@
}

/// The arguments that create the firewall rule of a testbed.
pub open spec fn firewall_arguments(testbed: Seq<char>) -> Seq<Seq<char>> {
    seq![
        "compute"@,
        "firewall-rules"@,
        "create"@,
        firewall_text(testbed),
        "--allow"@,
        "tcp,udp,icmp"@,
        "--source-ranges"@,
        "0.0.0.0/0"@,
        "--description"@,
        "Allow all traffic (used for benchmarks)."@,
        "--target-tags"@,
        firewall_text(testbed),
    ]
}

/// The arguments that list the machines of a testbed in one region.
pub open spec fn list_arguments(testbed: Seq<char>, region: Seq<char>) -> Seq<Seq<char>> {
    seq![
        "compute"@,
        "instances"@,
        "list"@,
        "--format"@,
        "json"@,
        "--filter"@,
        "tags.items="@ + testbed + " AND zone:("@ + region + ")"@,
    ]
}

/// The arguments that start a machine.
pub open spec fn start_arguments(id: Seq<char>, region: Seq<char>) -> Seq<Seq<char>> {
    seq!["compute"@, "instances"@, "start"@, id, "--zone"@, region]
}

/// The arguments that stop a machine and give up its local drives.
pub open spec fn stop_arguments(id: Seq<char>, region: Seq<char>) -> Seq<Seq<char>> {
    seq!["compute"@, "instances"@, "stop"@, id, "--zone"@, region, "--discard-local-ssd=true"@]
}

/// The arguments that delete a machine with its disks.
pub open spec fn delete_arguments(id: Seq<char>, region: Seq<char>) -> Seq<Seq<char>> {
    seq![
        "compute"@,
        "instances"@,
        "delete"@,
        id,
        "--zone"@,
        region,
        "--delete-disks"@,
        "all"@,
        "--quiet"@,
    ]
}

/// The arguments that let a public key log in as the testbed's user.
pub open spec fn ssh_key_arguments(public_key: Seq<char>) -> Seq<Seq<char>> {
    seq![
        "compute"@,
        "project-info"@,
        "add-metadata"@,
        "--metadata"@,
        "ssh-keys="@ + USERNAME@ + ":"@ + public_key,
    ]
}

/// The name of a new machine: the testbed, a hyphen, and a number.
pub open spec fn instance_text(testbed: Seq<char>, number: u16) -> Seq<char> {
    testbed + "-"@ + decimal_text(number as nat)
}

/// The arguments that create a machine: Ubuntu 20.04, a boot disk of 200
/// GB and two local NVMe drives.
pub open spec fn create_arguments(
    testbed: Seq<char>,
    specs: Seq<char>,
    id: Seq<char>,
    region: Seq<char>,
) -> Seq<Seq<char>> {
    seq![
        "compute"@,
        "instances"@,
        "create"@,
        id,
        "--image-family"@,
        "ubuntu-2004-lts"@,
        "--image-project"@,
        "ubuntu-os-cloud"@,
        "--boot-disk-size"@,
        "200GB"@,
        "--local-ssd"@,
        "interface=nvme,size=375GB"@,
        "--local-ssd"@,
        "interface=nvme,size=375GB"@,
        "--machine-type"@,
        specs,
        "--zone"@,
        region,
        "--tags"@,
        testbed + ","@ + firewall_text(testbed),
        "--format"@,
        "json"@,
    ]
}

/// Whether every character is a decimal digit.
pub open spec fn digits_only(text: Seq<char>) -> bool {
    forall|i: int| 0 <= i < text.len() ==> 48 <= #[trigger] (text[i] as u32) <= 57
}

/// The number that up to three decimal digits write.
pub open spec fn small_value(text: Seq<char>) -> int
    decreases text.len(),
{
    if text.len() == 0 {
        0
    } else {
        small_value(text.drop_last()) * 10 + (text.last() as u32 - 48)
    }
}

/// The number below 256 that `text` writes: one to three decimal digits,
/// without a zero in front of others.
pub open spec fn octet_of(text: Seq<char>) -> Option<u8> {
    if 1 <= text.len() <= 3 && digits_only(text) && (text.len() == 1 || text[0] as u32 != 48)
        && small_value(text) <= 255 {
        Some(small_value(text) as u8)
    } else {
        None
    }
}

/// The text in front of the last dot of `text`, if `text` has a dot.
pub open spec fn before_last_dot(text: Seq<char>) -> Option<Seq<char>> {
    if last_part_start(text, '.') == 0 {
        None
    } else {
        Some(text.subrange(0, last_part_start(text, '.') - 1))
    }
}

/// The address that `text` writes: four numbers below 256, divided by dots.
pub open spec fn ipv4_of(text: Seq<char>) -> Option<Ipv4> {
    match before_last_dot(text) {
        None => None,
        Some(abc) => match before_last_dot(abc) {
            None => None,
            Some(ab) => match before_last_dot(ab) {
                None => None,
                Some(a) => if before_last_dot(a) is Some {
                    None
                } else {
                    match (
                        octet_of(a),
                        octet_of(last_part(ab, '.')),
                        octet_of(last_part(abc, '.')),
                        octet_of(last_part(text, '.')),
                    ) {
                        (Some(a), Some(b), Some(c), Some(d)) => Some(Ipv4 { a, b, c, d }),
                        _ => None,
                    }
                },
            },
        },
    }
}

/// What the client makes of a description: the machine, or the first
/// thing that is wrong with the description. A machine without an address is
/// taken to be stopped and gets the address 0.0.0.0.
pub open spec fn instance_of(
    testbed: Seq<char>,
    region: Seq<char>,
    name: Option<Seq<char>>,
    nat_ip: Option<Seq<char>>,
    machine_type: Option<Seq<char>>,
    status: Option<Seq<char>>,
) -> Result<(Seq<char>, Ipv4, Seq<char>, Seq<char>), InstanceError> {
    let ip = match nat_ip {
        Some(text) => ipv4_of(text),
        None => Some(Ipv4 { a: 0, b: 0, c: 0, d: 0 }),
    };
    if name is None {
        Err(InstanceError::MissingName)
    } else if ip is None {
        Err(InstanceError::InvalidIp)
    } else if machine_type is None {
        Err(InstanceError::MissingType)
    } else if status is None {
        Err(InstanceError::MissingStatus)
    } else {
        Ok((name->0, ip->0, last_part(machine_type->0, '/'), status->0))
    }
}

/// The text of an optional string.
pub open spec fn text_of(s: Option<String>) -> Option<Seq<char>> {
    match s {
        Some(t) => Some(t@),
        None => None,
    }
}

/// Lower-case form of a text, as std's `str::to_lowercase` gives it.
pub uninterp spec fn lowercase_of(text: Seq<char>) -> Seq<char>;

/// The lower-case form of `text`, by std's `str::to_lowercase`.
#[verifier::external_body]
fn lowercase(text: &str) -> (r: String)
    ensures
        r@ == lowercase_of(text@),
{
    text.to_lowercase()
}

/// Whether a failed attempt to create the firewall rule is to be passed
/// over, given the lower-case form of what the tool wrote: it is where the
/// rule was there already.
pub fn rule_exists_already(lowered: &str) -> (r: bool)
    ensures
        r == occurs_in(lowered@, "already exists"@),
{
    contains_text(lowered, "already exists")
}

/// What to make of the attempt to create the firewall rule: nothing is
/// wrong where the tool succeeded or the rule was there already.
pub fn firewall_outcome(success: bool, error_message: &str) -> (r: Result<(), CloudProviderError>)
    ensures
        r is Ok == (success || occurs_in(lowercase_of(error_message@), "already exists"@)),
        r matches Err(e) ==> e matches CloudProviderError::UnexpectedResponse(m) && m@
            == "Failed to create firewall rule: "@ + error_message@,
{
    if success {
        return Ok(());
    }
    let lowered = lowercase(error_message);
    if rule_exists_already(lowered.as_str()) {
        Ok(())
    } else {
        Err(
            CloudProviderError::UnexpectedResponse(
                String::from_str("Failed to create firewall rule: ").concat(error_message),
            ),
        )
    }
}

fn split_last_dot(text: &str) -> (r: (Option<&str>, &str))
    ensures
        text_of_str(r.0) == before_last_dot(text@),
        r.1@ == last_part(text@, '.'),
{
    let n = text.unicode_len();
    let mut start: usize = n;
    while start > 0 && text.get_char(start - 1) != '.'
        invariant
            start <= n,
            n == text@.len(),
            forall|k: int| start <= k < n ==> text@[k] != '.',
        decreases start,
    {
        start -= 1;
    }
    proof {
        lemma_last_part_unique(text@, '.', start as int);
    }
    let last = text.substring_char(start, n);
    if start == 0 {
        (None, last)
    } else {
        (Some(text.substring_char(0, start - 1)), last)
    }
}

/// The text of an optional string slice.
pub open spec fn text_of_str(s: Option<&str>) -> Option<Seq<char>> {
    match s {
        Some(t) => Some(t@),
        None => None,
    }
}

/// The number below 256 that `text` writes, if it writes one.
pub fn parse_octet(text: &str) -> (r: Option<u8>)
    ensures
        r == octet_of(text@),
{
    let n = text.unicode_len();
    if n == 0 || n > 3 {
        return None;
    }
    let mut value: u32 = 0;
    let mut i: usize = 0;
    while i < n
        invariant
            i <= n <= 3,
            n == text@.len(),
            digits_only(text@.take(i as int)),
            value == small_value(text@.take(i as int)),
            value <= 999,
            i == 0 ==> value == 0,
            i == 1 ==> value <= 9,
            i == 2 ==> value <= 99,
        decreases n - i,
    {
        let c = text.get_char(i) as u32;
        if c < 48 || c > 57 {
            assert(!(48 <= text@[i as int] as u32 <= 57));
            return None;
        }
        proof {
            assert(text@.take(i as int + 1).drop_last() == text@.take(i as int));
            assert(text@.take(i as int + 1).last() == text@[i as int]);
            assert forall|k: int| 0 <= k < i + 1 implies 48 <= #[trigger] (text@.take(i as int + 1)[k] as u32)
                <= 57 by {
                if k < i {
                    assert(text@.take(i as int)[k] == text@.take(i as int + 1)[k]);
                }
            }
        }
        value = value * 10 + (c - 48);
        i += 1;
    }
    proof {
        assert(text@.take(n as int) == text@);
    }
    if (n > 1 && text.get_char(0) as u32 == 48) || value > 255 {
        return None;
    }
    Some(value as u8)
}

/// The address that `text` writes, if it writes one.
pub fn parse_ipv4(text: &str) -> (r: Option<Ipv4>)
    ensures
        r == ipv4_of(text@),
{
    let (abc, d) = split_last_dot(text);
    let abc = match abc {
        Some(abc) => abc,
        None => {
            return None;
        },
    };
    let (ab, c) = split_last_dot(abc);
    let ab = match ab {
        Some(ab) => ab,
        None => {
            return None;
        },
    };
    let (a, b) = split_last_dot(ab);
    let a = match a {
        Some(a) => a,
        None => {
            return None;
        },
    };
    let (none, first) = split_last_dot(a);
    if none.is_some() {
        return None;
    }
    proof {
        assert(last_part_start(a@, '.') == 0);
        assert(first@ =~= a@);
    }
    match (parse_octet(first), parse_octet(b), parse_octet(c), parse_octet(d)) {
        (Some(a), Some(b), Some(c), Some(d)) => Some(Ipv4 { a, b, c, d }),
        _ => None,
    }
}

fn push_text(list: &mut Vec<String>, text: &str)
    ensures
        texts(final(list)@) == texts(old(list)@).push(text@),
{
    list.push(String::from_str(text));
    assert(texts(list@) =~= texts(old(list)@).push(text@));
}

fn push_string(list: &mut Vec<String>, text: String)
    ensures
        texts(final(list)@) == texts(old(list)@).push(text@),
{
    list.push(text);
    assert(texts(list@) =~= texts(old(list)@).push(text@));
}

fn no_texts() -> (r: Vec<String>)
    ensures
        texts(r@) == Seq::<Seq<char>>::empty(),
{
    let r: Vec<String> = Vec::new();
    assert(texts(r@) =~= Seq::<Seq<char>>::empty());
    r
}

impl GcpClient {
    /// The settings of the testbed.
    pub closed spec fn settings(&self) -> Settings {
        self.settings
    }

    /// A client for the testbed that `settings` describes.
    pub fn new(settings: Settings) -> (r: Self)
        ensures
            r.settings() == settings,
    {
        Self { settings }
    }

    /// The commands to mount the first (standard) NVMe drive.
    pub fn nvme_mount_command(&self) -> (r: Vec<String>)
        ensures
            texts(r@) == mount_commands(self.settings().working_dir@),
    {
        let directory = self.settings.working_dir.as_str();
        let mut r = no_texts();
        push_string(
            &mut r,
            String::from_str("(sudo mkfs.ext4 -E nodiscard /dev/").concat("nvme0n1").concat(" || true)"),
        );
        push_string(
            &mut r,
            String::from_str("(sudo mount /dev/").concat("nvme0n1").concat(" ").concat(directory).concat(
                " || true)",
            ),
        );
        push_string(&mut r, String::from_str("sudo chmod 777 -R ").concat(directory));
        r
    }

    /// The command to unmount the drive again.
    pub fn nvme_unmount_command(&self) -> (r: Vec<String>)
        ensures
            texts(r@) == unmount_commands(self.settings().working_dir@),
    {
        let directory = self.settings.working_dir.as_str();
        let mut r = no_texts();
        push_string(&mut r, String::from_str("(sudo umount ").concat(directory).concat(" || true)"));
        r
    }

    /// The commands that prepare a fresh instance: mounting the drive where
    /// the settings ask for it, unmounting otherwise.
    pub fn instance_setup_commands(&self) -> (r: Vec<String>)
        ensures
            texts(r@) == if self.settings().nvme {
                mount_commands(self.settings().working_dir@)
            } else {
                unmount_commands(self.settings().working_dir@)
            },
    {
        if self.settings.nvme {
            self.nvme_mount_command()
        } else {
            self.nvme_unmount_command()
        }
    }

    /// The name of the testbed's firewall rule.
    pub fn firewall_name(&self) -> (r: String)
        ensures
            r@ == firewall_text(self.settings().testbed_id@),
    {
        String::from_str(self.settings.testbed_id.as_str()).concat("-firewall")
    }

    /// The arguments for `gcloud` that create the testbed's firewall rule.
    pub fn create_firewall_rule_arguments(&self) -> (r: Vec<String>)
        ensures
            texts(r@) == firewall_arguments(self.settings().testbed_id@),
    {
        let mut r = no_texts();
        push_text(&mut r, "compute");
        push_text(&mut r, "firewall-rules");
        push_text(&mut r, "create");
        push_string(&mut r, self.firewall_name());
        push_text(&mut r, "--allow");
        push_text(&mut r, "tcp,udp,icmp");
        push_text(&mut r, "--source-ranges");
        push_text(&mut r, "0.0.0.0/0");
        push_text(&mut r, "--description");
        push_text(&mut r, "Allow all traffic (used for benchmarks).");
        push_text(&mut r, "--target-tags");
        push_string(&mut r, self.firewall_name());
        r
    }

    /// The arguments for `gcloud` that list the testbed's machines in `region`.
    pub fn list_instances_arguments(&self, region: &str) -> (r: Vec<String>)
        ensures
            texts(r@) == list_arguments(self.settings().testbed_id@, region@),
    {
        let mut r = no_texts();
        push_text(&mut r, "compute");
        push_text(&mut r, "instances");
        push_text(&mut r, "list");
        push_text(&mut r, "--format");
        push_text(&mut r, "json");
        push_text(&mut r, "--filter");
        push_string(
            &mut r,
            String::from_str("tags.items=").concat(self.settings.testbed_id.as_str()).concat(
                " AND zone:(",
            ).concat(region).concat(")"),
        );
        r
    }

    /// The arguments for `gcloud` that start `instance`.
    pub fn start_instance_arguments(instance: &Instance) -> (r: Vec<String>)
        ensures
            texts(r@) == start_arguments(instance.id@, instance.region@),
    {
        let mut r = no_texts();
        push_text(&mut r, "compute");
        push_text(&mut r, "instances");
        push_text(&mut r, "start");
        push_text(&mut r, instance.id.as_str());
        push_text(&mut r, "--zone");
        push_text(&mut r, instance.region.as_str());
        r
    }

    /// The arguments for `gcloud` that stop `instance`.
    pub fn stop_instance_arguments(instance: &Instance) -> (r: Vec<String>)
        ensures
            texts(r@) == stop_arguments(instance.id@, instance.region@),
    {
        let mut r = no_texts();
        push_text(&mut r, "compute");
        push_text(&mut r, "instances");
        push_text(&mut r, "stop");
        push_text(&mut r, instance.id.as_str());
        push_text(&mut r, "--zone");
        push_text(&mut r, instance.region.as_str());
        push_text(&mut r, "--discard-local-ssd=true");
        r
    }

    /// The arguments for `gcloud` that delete `instance`.
    pub fn delete_instance_arguments(instance: &Instance) -> (r: Vec<String>)
        ensures
            texts(r@) == delete_arguments(instance.id@, instance.region@),
    {
        let mut r = no_texts();
        push_text(&mut r, "compute");
        push_text(&mut r, "instances");
        push_text(&mut r, "delete");
        push_text(&mut r, instance.id.as_str());
        push_text(&mut r, "--zone");
        push_text(&mut r, instance.region.as_str());
        push_text(&mut r, "--delete-disks");
        push_text(&mut r, "all");
        push_text(&mut r, "--quiet");
        r
    }

    /// The arguments for `gcloud` that register `public_key` for the testbed's user.
    pub fn register_ssh_public_key_arguments(public_key: &str) -> (r: Vec<String>)
        ensures
            texts(r@) == ssh_key_arguments(public_key@),
    {
        let mut r = no_texts();
        push_text(&mut r, "compute");
        push_text(&mut r, "project-info");
        push_text(&mut r, "add-metadata");
        push_text(&mut r, "--metadata");
        push_string(
            &mut r,
            String::from_str("ssh-keys=").concat(USERNAME).concat(":").concat(public_key),
        );
        r
    }

    /// The name of a new machine of the testbed, from a number drawn for it.
    pub fn instance_name(&self, random_id: u16) -> (r: String)
        ensures
            r@ == instance_text(self.settings().testbed_id@, random_id),
    {
        let number = decimal_string(random_id);
        String::from_str(self.settings.testbed_id.as_str()).concat("-").concat(number.as_str())
    }

    /// The arguments for `gcloud` that create the machine `instance_id` in `region`.
    pub fn create_instance_arguments(&self, instance_id: &str, region: &str) -> (r: Vec<String>)
        ensures
            texts(r@) == create_arguments(
                self.settings().testbed_id@,
                self.settings().specs@,
                instance_id@,
                region@,
            ),
    {
        let testbed = self.settings.testbed_id.as_str();
        let mut r = no_texts();
        push_text(&mut r, "compute");
        push_text(&mut r, "instances");
        push_text(&mut r, "create");
        push_text(&mut r, instance_id);
        push_text(&mut r, "--image-family");
        push_text(&mut r, "ubuntu-2004-lts");
        push_text(&mut r, "--image-project");
        push_text(&mut r, "ubuntu-os-cloud");
        push_text(&mut r, "--boot-disk-size");
        push_text(&mut r, "200GB");
        push_text(&mut r, "--local-ssd");
        push_text(&mut r, "interface=nvme,size=375GB");
        push_text(&mut r, "--local-ssd");
        push_text(&mut r, "interface=nvme,size=375GB");
        push_text(&mut r, "--machine-type");
        push_text(&mut r, self.settings.specs.as_str());
        push_text(&mut r, "--zone");
        push_text(&mut r, region);
        push_text(&mut r, "--tags");
        let tags = String::from_str(testbed).concat(",").concat(testbed).concat("-firewall");
        assert(tags@ =~= testbed@ + ","@ + firewall_text(testbed@));
        push_string(&mut r, tags);
        push_text(&mut r, "--format");
        push_text(&mut r, "json");
        r
    }

    /// Reads the provider's description of a machine in `region`: see [`instance_of`].
    pub fn make_instance(&self, region: String, gcp_instance: &GcpInstanceRecord) -> (r: Result<
        Instance,
        InstanceError,
    >)
        ensures
            match instance_of(
                self.settings().testbed_id@,
                region@,
                text_of(gcp_instance.name),
                text_of(gcp_instance.nat_ip),
                text_of(gcp_instance.machine_type),
                text_of(gcp_instance.status),
            ) {
                Ok((id, ip, specs, status)) => r matches Ok(i) && i.id@ == id && i.region@ == region@
                    && i.main_ip == ip && texts(i.tags@) == seq![self.settings().testbed_id@] && i.specs@
                    == specs && i.status@ == status,
                Err(e) => r matches Err(f) && f == e,
            },
    {
        let id = match &gcp_instance.name {
            Some(name) => String::from_str(name.as_str()),
            None => {
                return Err(InstanceError::MissingName);
            },
        };
        let main_ip = match &gcp_instance.nat_ip {
            Some(text) => match parse_ipv4(text.as_str()) {
                Some(ip) => ip,
                None => {
                    return Err(InstanceError::InvalidIp);
                },
            },
            // Stopped instances do not have an ip address.
            None => Ipv4 { a: 0, b: 0, c: 0, d: 0 },
        };
        let specs = match &gcp_instance.machine_type {
            Some(text) => last_part_of(text.as_str(), '/'),
            None => {
                return Err(InstanceError::MissingType);
            },
        };
        let status = match &gcp_instance.status {
            Some(text) => String::from_str(text.as_str()),
            None => {
                return Err(InstanceError::MissingStatus);
            },
        };
        let mut tags = no_texts();
        push_text(&mut tags, self.settings.testbed_id.as_str());
        Ok(Instance { id, region, main_ip, tags, specs, status })
    }
}

} // verus!
