//! Rotation of transaction logs that grew too large: the log becomes
//! `<name>.0`, each `<name>.<n>` becomes `<name>.<n+1>`, and the logs past
//! the retention limit are removed.
use vstd::prelude::*;
use crate::runtime::value::same_text;

verus! {

/// When to rotate, and how many rotated logs to keep.
#[derive(Debug, Clone)]
pub struct RotationConfig {
    /// The size in bytes past which a log is rotated.
    pub max_log_size: u64,
    /// How many rotated logs are kept.
    pub max_rotated_logs: usize,
}

impl Default for RotationConfig {
    /// Rotate past 100 MiB, keep ten rotated logs.
    fn default() -> (r: Self)
        ensures
            r.max_log_size == 100 * 1024 * 1024,
            r.max_rotated_logs == 10,
    {
        RotationConfig { max_log_size: 100 * 1024 * 1024, max_rotated_logs: 10 }
    }
}

/// One file operation of a rotation. The number -1 stands for the log
/// itself, `n >= 0` for `<name>.<n>`.
#[derive(Debug, Clone, Copy, PartialEq, Eq, Structural)]
pub enum RotationStep {
    /// Remove the file, if it exists.
    Remove { number: i32 },
    /// Rename the file, if it exists, to the number `to`.
    Rename { from: i32, to: i32 },
}

/// The step for the file numbered `i`: it moves up by one, or is removed
/// when that would pass the retention limit.
pub open spec fn rotation_step(max_rotated_logs: usize, i: int) -> RotationStep {
    if i + 1 >= max_rotated_logs {
        RotationStep::Remove { number: i as i32 }
    } else {
        RotationStep::Rename { from: i as i32, to: (i + 1) as i32 }
    }
}

/// The name of a rotated log for `base` followed by `suffix`.
pub open spec fn rotated_prefix(base: Seq<char>) -> Seq<char> {
    base + "."@
}

/// Whether every character of `s` is an ASCII digit.
pub open spec fn all_digits(s: Seq<char>) -> bool {
    forall|i: int| 0 <= i < s.len() ==> '0' <= #[trigger] s[i] <= '9'
}

/// The number the decimal digits `s` write.
pub open spec fn digits_value(s: Seq<char>) -> int
    decreases s.len(),
{
    if s.len() == 0 {
        0
    } else {
        digits_value(s.drop_last()) * 10 + (s.last() as int - '0' as int)
    }
}

/// What parsing a text as an `i32` gives: an optional `+` or `-` sign,
/// then one or more ASCII digits, whose value must fit an `i32`.
pub open spec fn parsed_i32(s: Seq<char>) -> Option<i32> {
    let negative = s.len() > 0 && s[0] == '-';
    let body = if s.len() > 0 && (s[0] == '-' || s[0] == '+') {
        s.drop_first()
    } else {
        s
    };
    let v = if negative {
        -digits_value(body)
    } else {
        digits_value(body)
    };
    if body.len() == 0 || !all_digits(body) || v < i32::MIN || v > i32::MAX {
        None
    } else {
        Some(v as i32)
    }
}

/// Parses `s` with `str::parse::<i32>`: `Some` of the number on success,
/// `None` when the text is not an optionally signed decimal `i32`.
#[verifier::external_body]
fn parse_i32(s: &str) -> (r: Option<i32>)
    ensures
        r == parsed_i32(s@),
{
    s.parse::<i32>().ok()
}

/// The number of a rotated log named `name` for the log named `base`:
/// the part after `<base>.`, read as an `i32`.
pub open spec fn rotated_number(name: Seq<char>, base: Seq<char>) -> Option<i32> {
    let p = rotated_prefix(base);
    if name.len() >= p.len() && name.subrange(0, p.len() as int) == p {
        parsed_i32(name.subrange(p.len() as int, name.len() as int))
    } else {
        None
    }
}

/// The highest number among the rotated logs in the first `n` of `names`,
/// or -1 when there is none.
pub open spec fn highest_number(names: Seq<Seq<char>>, base: Seq<char>, n: int) -> int
    decreases n,
{
    if n <= 0 {
        -1
    } else {
        let prev = highest_number(names, base, n - 1);
        match rotated_number(names[n - 1], base) {
            Some(k) => if k > prev {
                k as int
            } else {
                prev
            },
            None => prev,
        }
    }
}

/// Whether `name` starts with `prefix`, and what follows it.
fn strip_prefix<'a>(name: &'a str, prefix: &str) -> (r: Option<&'a str>)
    ensures
        match r {
            Some(rest) => name@.len() >= prefix@.len() && name@.subrange(0, prefix@.len() as int) == prefix@
                && rest@ == name@.subrange(prefix@.len() as int, name@.len() as int),
            None => !(name@.len() >= prefix@.len() && name@.subrange(0, prefix@.len() as int) == prefix@),
        },
{
    let n = name.unicode_len();
    let m = prefix.unicode_len();
    if n < m {
        return None;
    }
    let head = name.substring_char(0, m);
    if !same_text(head, prefix) {
        return None;
    }
    Some(name.substring_char(m, n))
}

/// Rotates logs by a fixed configuration.
pub struct LogRotator {
    config: RotationConfig,
}

impl LogRotator {
    pub closed spec fn config(&self) -> RotationConfig {
        self.config
    }

    pub fn new(config: RotationConfig) -> (r: Self)
        ensures
            r.config() == config,
    {
        LogRotator { config }
    }

    /// Whether a log of `file_size` bytes is due for rotation; `None` when
    /// the log does not exist.
    pub fn should_rotate(&self, file_size: Option<u64>) -> (r: bool)
        ensures
            r == (file_size matches Some(n) && n > self.config().max_log_size),
    {
        match file_size {
            Some(n) => n > self.config.max_log_size,
            None => false,
        }
    }

    /// The number of the rotated log `name` of the log named `base`.
    pub fn rotated_log_number(name: &str, base: &str) -> (r: Option<i32>)
        ensures
            r == rotated_number(name@, base@),
    {
        let mut prefix = base.to_owned();
        prefix.append(".");
        proof {
            reveal_strlit(".");
        }
        match strip_prefix(name, prefix.as_str()) {
            Some(rest) => parse_i32(rest),
            None => None,
        }
    }

    /// The highest number among the rotated logs of `base` in `names`,
    /// or -1 when there is none.
    pub fn highest_rotated(names: &Vec<String>, base: &str) -> (r: i32)
        ensures
            r == highest_number(names@.map_values(|s: String| s@), base@, names@.len() as int),
            r >= -1,
    {
        let ghost views = names@.map_values(|s: String| s@);
        let mut best: i32 = -1;
        let mut i: usize = 0;
        while i < names.len()
            invariant
                i <= names@.len(),
                views == names@.map_values(|s: String| s@),
                best == highest_number(views, base@, i as int),
                best >= -1,
            decreases names.len() - i,
        {
            proof {
                assert(views[i as int] == names@[i as int]@);
            }
            match Self::rotated_log_number(names[i].as_str(), base) {
                Some(k) => {
                    if k > best {
                        best = k;
                    }
                },
                None => {},
            }
            i = i + 1;
        }
        best
    }

    /// The file operations that rotate a log whose highest rotated number
    /// is `max_num`, from the highest number down to the log itself.
    pub fn rotation_plan(&self, max_num: i32) -> (r: Vec<RotationStep>)
        requires
            -1 <= max_num < i32::MAX,
        ensures
            r@.len() == max_num + 2,
            forall|k: int| 0 <= k < r@.len() ==> #[trigger] r@[k] == rotation_step(self.config().max_rotated_logs, max_num - k),
    {
        let mut r: Vec<RotationStep> = Vec::new();
        let mut i: i32 = max_num;
        while i >= -1
            invariant
                -2 <= i <= max_num,
                max_num < i32::MAX,
                r@.len() == max_num - i,
                forall|k: int| 0 <= k < r@.len() ==> #[trigger] r@[k] == rotation_step(self.config().max_rotated_logs, max_num - k),
            decreases i + 2,
        {
            let new_num = i + 1;
            if new_num as usize >= self.config.max_rotated_logs {
                r.push(RotationStep::Remove { number: i });
            } else {
                r.push(RotationStep::Rename { from: i, to: new_num });
            }
            i = i - 1;
        }
        r
    }

    /// Whether `name` is a rotated log of the log named `base`: it starts
    /// with `<base>.`.
    pub fn is_rotated_log(name: &str, base: &str) -> (r: bool)
        ensures
            r == (name@.len() >= rotated_prefix(base@).len() && name@.subrange(0, rotated_prefix(base@).len() as int)
                == rotated_prefix(base@)),
    {
        let mut prefix = base.to_owned();
        prefix.append(".");
        proof {
            reveal_strlit(".");
        }
        strip_prefix(name, prefix.as_str()).is_some()
    }
}

} // verus!
