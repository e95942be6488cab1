use vstd::prelude::*;

verus! {

/// Largest number of coordinate pairs that a run may ask for.
pub const MAX_PAIRS: u64 = 0x4_0000_0000;

/// How the coordinate pairs are spread over the globe.
#[derive(Debug, Clone, Copy, PartialEq, Eq, Structural)]
pub enum Generation {
    Uniform,
    Cluster,
}

/// What a run of the input generator was asked to do.
pub struct Settings {
    pub generation_type: Generation,
    pub generation_seed: u64,
    pub requested_count: u64,
}

/// Whether `s` is one or more ASCII decimal digits.
pub open spec fn all_digits(s: Seq<char>) -> bool {
    s.len() > 0 && forall|i: int| 0 <= i < s.len() ==> '0' <= #[trigger] s[i] <= '9'
}

/// The number that the decimal digits `s` spell.
pub open spec fn digits_value(s: Seq<char>) -> nat
    decreases s.len(),
{
    if s.len() == 0 {
        0
    } else {
        digits_value(s.drop_last()) * 10 + (s.last() as nat - '0' as nat) as nat
    }
}

/// The value of `s` read as an unsigned decimal: an optional `+` followed by
/// digits only, of a value that fits in 64 bits.
pub open spec fn decimal_u64(s: Seq<char>) -> Option<u64> {
    let d = if s.len() > 0 && s[0] == '+' {
        s.drop_first()
    } else {
        s
    };
    if all_digits(d) && digits_value(d) <= u64::MAX {
        Some(digits_value(d) as u64)
    } else {
        None
    }
}

/// Relies on `<u64 as FromStr>::from_str`, which accepts an optional `+` and
/// then digits only, and fails on anything else or on overflow.
#[verifier::external_body]
fn parse_u64(s: &str) -> (r: Option<u64>)
    ensures
        r == decimal_u64(s@),
{
    s.parse::<u64>().ok()
}

/// The generation named `s`, if any.
pub open spec fn generation_named(s: Seq<char>) -> Option<Generation> {
    if s == "uniform"@ {
        Some(Generation::Uniform)
    } else if s == "cluster"@ {
        Some(Generation::Cluster)
    } else {
        None
    }
}

/// The settings that the arguments `args` ask for (the program name left
/// out): a generation type, a seed and a pair count, the count capped at
/// `MAX_PAIRS`. Arguments after the third are ignored.
pub open spec fn settings_of(args: Seq<String>) -> Option<(Generation, u64, u64)> {
    if args.len() < 3 {
        None
    } else {
        match (generation_named(args[0]@), decimal_u64(args[1]@), decimal_u64(args[2]@)) {
            (Some(g), Some(seed), Some(count)) => Some(
                (g, seed, if count > MAX_PAIRS { MAX_PAIRS } else { count }),
            ),
            _ => None,
        }
    }
}

impl Generation {
    /// The name under which this generation is chosen on the command line.
    pub fn name(&self) -> (r: &'static str)
        ensures
            generation_named(r@) == Some(*self),
    {
        proof {
            reveal_strlit("uniform");
            reveal_strlit("cluster");
            assert("uniform"@[0] != "cluster"@[0]);
        }
        match self {
            Generation::Uniform => "uniform",
            Generation::Cluster => "cluster",
        }
    }
}

/// Whether the strings `a` and `b` hold the same characters.
fn same_text(a: &str, b: &str) -> (r: bool)
    ensures
        r == (a@ == b@),
{
    let x = a.to_owned();
    let y = b.to_owned();
    x == y
}

/// Reads the generator's settings from its arguments (the program name left
/// out); `None` where one is missing or malformed.
pub fn parse_settings(args: &Vec<String>) -> (r: Option<Settings>)
    ensures
        match r {
            Some(s) => settings_of(args@) == Some(
                (s.generation_type, s.generation_seed, s.requested_count),
            ),
            None => settings_of(args@) is None,
        },
{
    if args.len() < 3 {
        return None;
    }
    let kind = args[0].as_str();
    let generation_type = if same_text(kind, "uniform") {
        Generation::Uniform
    } else if same_text(kind, "cluster") {
        Generation::Cluster
    } else {
        return None;
    };
    let generation_seed = match parse_u64(args[1].as_str()) {
        Some(v) => v,
        None => return None,
    };
    let count = match parse_u64(args[2].as_str()) {
        Some(v) => v,
        None => return None,
    };
    let requested_count = if count > MAX_PAIRS {
        MAX_PAIRS
    } else {
        count
    };
    Some(Settings { generation_type, generation_seed, requested_count })
}

} // verus!
