use vstd::prelude::*;

use crate::text::str_eq;

verus! {

/// Which engine a request drives: name search over a directory tree, or
/// line search inside one file.
#[derive(Clone, Copy, Debug, PartialEq, Eq, Structural)]
pub enum SearchMode {
    NameSearch,
    ContentSearch,
}

/// A validated search request: a non-empty query, a target path, the
/// mode, a depth bound (a missing or unparseable depth argument means
/// 0: immediate children only), a positive concurrency factor, and the
/// invert flag.
#[derive(Clone, Debug)]
pub struct Config {
    pub query: String,
    pub target: String,
    pub mode: SearchMode,
    pub depth: Option<usize>,
    pub num_threads: usize,
    pub invert_match: bool,
}

/// A decimal digit character.
pub open spec fn is_digit(c: char) -> bool {
    c == '0' || c == '1' || c == '2' || c == '3' || c == '4' || c == '5' || c == '6' || c == '7'
        || c == '8' || c == '9'
}

/// The numeric value of a digit character (10 on a non-digit, which
/// `all_digits` rules out wherever the value matters).
pub open spec fn digit_val(c: char) -> nat {
    if c == '0' {
        0
    } else if c == '1' {
        1
    } else if c == '2' {
        2
    } else if c == '3' {
        3
    } else if c == '4' {
        4
    } else if c == '5' {
        5
    } else if c == '6' {
        6
    } else if c == '7' {
        7
    } else if c == '8' {
        8
    } else if c == '9' {
        9
    } else {
        10
    }
}

/// Every character of the sequence is a decimal digit.
pub open spec fn all_digits(s: Seq<char>) -> bool {
    forall|i: int| 0 <= i < s.len() ==> is_digit(s[i])
}

/// The value of a digit sequence read in base 10.
pub open spec fn digits_val(s: Seq<char>) -> nat
    decreases s.len(),
{
    if s.len() == 0 {
        0
    } else {
        digits_val(s.drop_last()) * 10 + digit_val(s.last())
    }
}

/// The digits of a numeral: an optional leading plus sign is dropped.
pub open spec fn num_body(s: Seq<char>) -> Seq<char> {
    if s.len() > 0 && s[0] == '+' {
        s.drop_first()
    } else {
        s
    }
}

/// The numerals accepted as a `usize`: a non-empty digit run, after an
/// optional leading plus sign, whose value fits the type.
pub open spec fn parse_accepts(s: Seq<char>) -> bool {
    &&& num_body(s).len() > 0
    &&& all_digits(num_body(s))
    &&& digits_val(num_body(s)) <= usize::MAX
}

/// A longer digit prefix never has a smaller value.
proof fn lemma_digits_val_take_mono(s: Seq<char>, j: int)
    requires
        0 <= j <= s.len(),
    ensures
        digits_val(s.take(j)) <= digits_val(s),
    decreases s.len() - j,
{
    if j == s.len() {
        assert(s.take(j) =~= s);
    } else {
        assert(s.take(j + 1).drop_last() =~= s.take(j));
        assert(s.take(j + 1).last() == s[j]);
        lemma_digits_val_take_mono(s, j + 1);
    }
}

/// Read a non-negative decimal numeral, with an optional leading plus
/// sign, exactly when its value fits a `usize`.
pub fn parse_usize(s: &str) -> (r: Option<usize>)
    ensures
        r is Some <==> parse_accepts(s@),
        r matches Some(v) ==> v as nat == digits_val(num_body(s@)),
{
    let ghost body = num_body(s@);
    let n = s.unicode_len();
    let start: usize = if n > 0 && s.get_char(0) == '+' {
        1
    } else {
        0
    };
    proof {
        if start == 1 {
            assert(body =~= s@.subrange(1, n as int));
        } else {
            assert(body =~= s@);
        }
    }
    if start >= n {
        assert(body.len() == 0);
        return None;
    }
    let mut acc: usize = 0;
    let mut i: usize = start;
    assert(body.take(0) =~= Seq::<char>::empty());
    while i < n
        invariant
            start <= i <= n,
            start < n,
            n == s@.len(),
            body == num_body(s@),
            body.len() == n - start,
            forall|k: int| 0 <= k < body.len() ==> body[k] == s@[k + start],
            acc as nat == digits_val(body.take(i - start)),
            all_digits(body.take(i - start)),
        decreases n - i,
    {
        let ghost j = i - start;
        let d: usize = match s.get_char(i) {
            '0' => 0,
            '1' => 1,
            '2' => 2,
            '3' => 3,
            '4' => 4,
            '5' => 5,
            '6' => 6,
            '7' => 7,
            '8' => 8,
            '9' => 9,
            _ => {
                assert(!is_digit(body[j]));
                return None;
            },
        };
        assert(is_digit(body[j]) && d as nat == digit_val(body[j]));
        proof {
            assert(body.take(j + 1).drop_last() =~= body.take(j));
            assert(body.take(j + 1).last() == body[j]);
        }
        let m = match acc.checked_mul(10) {
            Some(m) => m,
            None => {
                proof {
                    lemma_digits_val_take_mono(body, j + 1);
                }
                return None;
            },
        };
        acc = match m.checked_add(d) {
            Some(a) => a,
            None => {
                proof {
                    lemma_digits_val_take_mono(body, j + 1);
                }
                return None;
            },
        };
        i += 1;
    }
    proof {
        assert(body.take(n - start) =~= body);
    }
    Some(acc)
}

/// The value of the optional numeric argument at position `i`: the
/// parsed value where one is present and accepted, the default
/// otherwise.
pub open spec fn opt_arg_value(args: Seq<String>, i: int, default: nat) -> nat {
    if i < args.len() && parse_accepts(args[i]@) {
        digits_val(num_body(args[i]@))
    } else {
        default
    }
}

/// Some argument is the invert flag.
pub open spec fn has_invert_flag(args: Seq<String>) -> bool {
    exists|j: int| 0 <= j < args.len() && args[j]@ == "--invert"@
}

impl Config {
    /// Build a validated request from the raw argument list: the mode
    /// word, the query, the target, then the optional depth and thread
    /// count, with the invert flag anywhere. The mode word is judged as
    /// soon as it is present, so a call that has one but lacks the
    /// target still learns when the mode word is unknown.
    pub fn build(args: &[String]) -> (r: Result<Config, &'static str>)
        ensures
            ({
                let a = args@;
                if a.len() < 3 {
                    r matches Err(m) && m@ == "not enough arguments"@
                } else if a[1]@ != "file"@ && a[1]@ != "content"@ {
                    r matches Err(m) && m@ == "invalid search mode"@
                } else if a.len() < 4 {
                    r matches Err(m) && m@ == "not enough arguments"@
                } else if a[2]@.len() == 0 {
                    r matches Err(m) && m@ == "empty query"@
                } else if opt_arg_value(a, 5, 2) == 0 {
                    r matches Err(m) && m@ == "thread count must be positive"@
                } else {
                    r matches Ok(c) && ({
                        &&& c.query@ == a[2]@
                        &&& c.target@ == a[3]@
                        &&& (c.mode is NameSearch <==> a[1]@ == "file"@)
                        &&& (c.mode is ContentSearch <==> a[1]@ == "content"@)
                        &&& c.depth matches Some(d) && d as nat == opt_arg_value(a, 4, 0)
                        &&& c.num_threads as nat == opt_arg_value(a, 5, 2)
                        &&& c.num_threads >= 1
                        &&& (c.invert_match <==> has_invert_flag(a))
                    })
                }
            }),
    {
        proof {
            reveal_strlit("file");
            reveal_strlit("content");
            assert("file"@.len() == 4);
            assert("content"@.len() == 7);
            assert("file"@ != "content"@);
        }
        if args.len() < 3 {
            return Err("not enough arguments");
        }
        let mode = if str_eq(args[1].as_str(), "file") {
            SearchMode::NameSearch
        } else if str_eq(args[1].as_str(), "content") {
            SearchMode::ContentSearch
        } else {
            return Err("invalid search mode");
        };
        if args.len() < 4 {
            return Err("not enough arguments");
        }
        let query = args[2].clone();
        if query.as_str().is_empty() {
            return Err("empty query");
        }
        let target = args[3].clone();
        let depth: usize = if args.len() > 4 {
            match parse_usize(args[4].as_str()) {
                Some(d) => d,
                None => 0,
            }
        } else {
            0
        };
        let num_threads: usize = if args.len() > 5 {
            match parse_usize(args[5].as_str()) {
                Some(t) => t,
                None => 2,
            }
        } else {
            2
        };
        if num_threads == 0 {
            return Err("thread count must be positive");
        }
        let mut invert_match = false;
        let mut i: usize = 0;
        while i < args.len()
            invariant
                i <= args@.len(),
                invert_match <==> exists|j: int| 0 <= j < i && args@[j]@ == "--invert"@,
            decreases args@.len() - i,
        {
            if str_eq(args[i].as_str(), "--invert") {
                invert_match = true;
                assert(args@[i as int]@ == "--invert"@);
            }
            i += 1;
        }
        Ok(Config { query, target, mode, depth: Some(depth), num_threads, invert_match })
    }
}

} // verus!
