//! The command-line options of the testbed tool, and what they select.

use vstd::prelude::*;
use vstd::string::StrSliceExecFns;

verus! {

/// The options of one run.
pub struct Opts {
    /// The path to the settings file.
    pub settings_path: String,
    /// The type of operation to run.
    pub operation: Operation,
}

/// What to do.
pub enum Operation {
    /// Get or modify the status of the testbed.
    Testbed { action: TestbedAction },
    /// Run a benchmark on the specified testbed.
    Benchmark {
        /// The path to the node's parameters.
        node_config: String,
        /// The committee size to deploy.
        committee: usize,
        /// Number of faulty nodes.
        faults: usize,
        /// Whether the faulty nodes recover.
        crash_recovery: bool,
        /// The interval to crash nodes, in seconds.
        crash_interval: u64,
        /// The minimum duration of the benchmark, in seconds.
        duration: u64,
        /// The interval between measurements collection, in seconds.
        scrape_interval: u64,
        /// Whether to skip testbed updates before running benchmarks.
        skip_testbed_update: bool,
        /// Whether to skip testbed configuration before running benchmarks.
        skip_testbed_configuration: bool,
        /// Whether to download and analyze the client and node log files.
        log_processing: bool,
        /// The number of instances running exclusively load generators.
        dedicated_clients: usize,
        /// Whether to boot monitoring on a dedicated machine.
        monitoring: bool,
        /// The timeout for ssh commands, in seconds.
        timeout: u64,
        /// The number of times an ssh command is retried.
        retries: usize,
        /// The load to submit to the system.
        load_type: Load,
    },
    /// Print a summary of the specified measurements collection.
    Summarize { path: String },
}

/// What to do with the testbed.
pub enum TestbedAction {
    /// Display the testbed status.
    Status,
    /// Deploy the specified number of instances in all regions, or in one.
    Deploy { instances: usize, region: Option<String> },
    /// Start at most the specified number of instances per region.
    Start { instances: usize },
    /// Stop the testbed without destroying the instances.
    Stop,
    /// Destroy the testbed and terminate all instances.
    Destroy,
}

/// The load of a benchmark.
pub enum Load {
    /// Fixed loads, in transactions per second.
    FixedLoad { loads: Vec<usize> },
    /// Search for the highest load the system sustains.
    Search { starting_load: usize, max_iterations: usize },
}

/// The load that a benchmark is run with.
pub enum LoadType {
    /// A list of fixed loads, each run in turn.
    Fixed(Vec<usize>),
    /// A search for the breaking point.
    Search { starting_load: usize, max_iterations: usize },
}

/// The faults that a benchmark injects.
#[derive(Clone, Copy, Debug, PartialEq, Eq, Structural)]
pub enum FaultsType {
    /// This many nodes are down for the whole run.
    Permanent { faults: usize },
    /// Up to this many nodes crash and recover, every `interval` seconds.
    CrashRecovery { max_faults: usize, interval: u64 },
}

/// The load used where none is named, in transactions per second.
pub const DEFAULT_LOAD: usize = 200;

/// The loads a benchmark runs with: those asked for, or the default one.
pub open spec fn selected_loads(loads: Seq<usize>) -> Seq<usize> {
    if loads.len() == 0 {
        seq![DEFAULT_LOAD]
    } else {
        loads
    }
}

/// The load of a benchmark, from the options.
pub fn select_load(load: Load) -> (r: LoadType)
    ensures
        match load {
            Load::FixedLoad { loads } => r matches LoadType::Fixed(v) && v@ == selected_loads(loads@),
            Load::Search { starting_load, max_iterations } => r == (LoadType::Search {
                starting_load,
                max_iterations,
            }),
        },
{
    match load {
        Load::FixedLoad { loads } => {
            if loads.len() == 0 {
                let mut v: Vec<usize> = Vec::new();
                v.push(DEFAULT_LOAD);
                LoadType::Fixed(v)
            } else {
                LoadType::Fixed(loads)
            }
        },
        Load::Search { starting_load, max_iterations } => LoadType::Search {
            starting_load,
            max_iterations,
        },
    }
}

/// The faults of a benchmark, from the options: nodes crash and recover
/// only where that is asked for and there are faulty nodes at all.
pub fn select_faults(crash_recovery: bool, faults: usize, crash_interval: u64) -> (r: FaultsType)
    ensures
        r == if !crash_recovery || faults == 0 {
            FaultsType::Permanent { faults }
        } else {
            FaultsType::CrashRecovery { max_faults: faults, interval: crash_interval }
        },
{
    if !crash_recovery || faults == 0 {
        FaultsType::Permanent { faults }
    } else {
        FaultsType::CrashRecovery { max_faults: faults, interval: crash_interval }
    }
}

/// Why a text is no number of seconds.
#[derive(Clone, Copy, Debug, PartialEq, Eq, Structural)]
pub enum DurationError {
    /// The text is empty.
    Empty,
    /// The text holds something other than decimal digits after an optional `+`.
    InvalidDigit,
    /// The number does not fit in 64 bits.
    Overflow,
}

/// Whether `c` is a decimal digit.
pub open spec fn is_digit(c: char) -> bool {
    48 <= c as u32 <= 57
}

/// The value of a decimal digit.
pub open spec fn digit_value(c: char) -> nat {
    (c as u32 - 48) as nat
}

/// The number that a sequence of decimal digits writes.
pub open spec fn decimal_value(digits: Seq<char>) -> nat
    decreases digits.len(),
{
    if digits.len() == 0 {
        0
    } else {
        decimal_value(digits.drop_last()) * 10 + digit_value(digits.last())
    }
}

/// Whether every character is a decimal digit.
pub open spec fn all_digits(digits: Seq<char>) -> bool {
    forall|i: int| 0 <= i < digits.len() ==> is_digit(#[trigger] digits[i])
}

/// The digits of a text: the text without a leading `+`.
pub open spec fn unsigned_part(text: Seq<char>) -> Seq<char> {
    if text.len() > 0 && text[0] as u32 == 43 {
        text.drop_first()
    } else {
        text
    }
}

/// What a text means as a number of seconds: decimal digits, with `+`
/// allowed in front, that write a number below 2^64.
pub open spec fn seconds_of(text: Seq<char>) -> Result<u64, DurationError> {
    let digits = unsigned_part(text);
    if text.len() == 0 {
        Err(DurationError::Empty)
    } else if digits.len() == 0 || !all_digits(digits) {
        Err(DurationError::InvalidDigit)
    } else if decimal_value(digits) > u64::MAX {
        Err(DurationError::Overflow)
    } else {
        Ok(decimal_value(digits) as u64)
    }
}

/// Appending digits to a number never makes it smaller.
proof fn lemma_decimal_value_grows(digits: Seq<char>, n: int)
    requires
        0 <= n <= digits.len(),
    ensures
        decimal_value(digits.take(n)) <= decimal_value(digits),
    decreases digits.len() - n,
{
    if n < digits.len() {
        lemma_decimal_value_grows(digits, n + 1);
        assert(digits.take(n + 1).drop_last() == digits.take(n));
    } else {
        assert(digits.take(n) == digits);
    }
}

/// Reads a duration given as a whole number of seconds.
pub fn parse_duration(arg: &str) -> (r: Result<u64, DurationError>)
    ensures
        r == seconds_of(arg@),
{
    let len = arg.unicode_len();
    if len == 0 {
        return Err(DurationError::Empty);
    }
    let start: usize = if arg.get_char(0) as u32 == 43 {
        1
    } else {
        0
    };
    let ghost digits = unsigned_part(arg@);
    assert(digits == arg@.subrange(start as int, len as int));
    if start == len {
        return Err(DurationError::InvalidDigit);
    }
    let mut i: usize = start;
    while i < len
        invariant
            start <= i <= len,
            len == arg@.len(),
            start < len,
            digits == unsigned_part(arg@),
            digits == arg@.subrange(start as int, len as int),
            forall|k: int| 0 <= k < i - start ==> is_digit(#[trigger] digits[k]),
        decreases len - i,
    {
        let c = arg.get_char(i) as u32;
        if c < 48 || c > 57 {
            assert(digits[i - start] == arg@[i as int]);
            assert(!is_digit(digits[i - start]));
            return Err(DurationError::InvalidDigit);
        }
        assert(digits[i - start] == arg@[i as int]);
        i += 1;
    }
    assert(all_digits(digits));
    let mut value: u64 = 0;
    let mut j: usize = start;
    while j < len
        invariant
            start <= j <= len,
            len == arg@.len(),
            start < len,
            digits == unsigned_part(arg@),
            digits == arg@.subrange(start as int, len as int),
            all_digits(digits),
            value == decimal_value(digits.take(j - start)),
        decreases len - j,
    {
        let c = arg.get_char(j);
        assert(digits[j - start] == c);
        assert(is_digit(digits[j - start]));
        let d = (c as u32 - 48) as u64;
        proof {
            assert(is_digit(digits[j - start]));
            assert(digits.take(j - start + 1).drop_last() == digits.take(j - start));
            assert(digits.take(j - start + 1).last() == c);
            lemma_decimal_value_grows(digits, j - start + 1);
        }
        if value > (u64::MAX - d) / 10 {
            assert(value * 10 + d > u64::MAX);
            return Err(DurationError::Overflow);
        }
        value = value * 10 + d;
        j += 1;
    }
    assert(digits.take(len - start) == digits);
    Ok(value)
}

} // verus!
