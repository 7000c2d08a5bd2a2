//! Per-repository configuration: the protected-branch list and the snapshot
//! stack capacity.
//!
//! Values are merged from several sources (defaults, config files, the
//! environment).  Merging is last-writer-wins per field, except that
//! protected-branch lists accumulate.  Reading the sources is left to the
//! caller; this module holds the merge and parsing rules.

use vstd::prelude::*;

verus! {

/// Number of snapshots a stack keeps when no capacity is configured.
pub const DEFAULT_CAPACITY: usize = 30;

/// The characters of a list of strings.
pub open spec fn names_view(v: Seq<String>) -> Seq<Seq<char>> {
    v.map_values(|s: String| s@)
}

/// Configuration fields; `None` means "not set by this source".
pub struct RepoConfig {
    pub protected_branches: Option<Vec<String>>,
    pub capacity: Option<usize>,
}

/// How two protected-branch lists merge: both set concatenates, otherwise
/// whichever is set wins.
pub open spec fn merged_protected(
    base: Option<Seq<Seq<char>>>,
    over: Option<Seq<Seq<char>>>,
) -> Option<Seq<Seq<char>>> {
    match (base, over) {
        (Some(b), Some(o)) => Some(b + o),
        (None, Some(o)) => Some(o),
        (b, None) => b,
    }
}

impl RepoConfig {
    /// The protected-branch list as character sequences, if set.
    pub open spec fn protected_view(&self) -> Option<Seq<Seq<char>>> {
        match self.protected_branches {
            Some(v) => Some(names_view(v@)),
            None => None,
        }
    }

    /// Overlay `other` on `self`: protected branches accumulate, capacity is
    /// last-writer-wins.
    pub fn update(self, other: Self) -> (r: Self)
        ensures
            r.protected_view() == merged_protected(self.protected_view(), other.protected_view()),
            r.capacity == (match other.capacity {
                Some(c) => Some(c),
                None => self.capacity,
            }),
    {
        let ghost old_self = self.protected_view();
        let ghost old_other = other.protected_view();
        let protected_branches = match (self.protected_branches, other.protected_branches) {
            (Some(lhs), Some(rhs)) => {
                let mut lhs = lhs;
                let mut rhs = rhs;
                lhs.append(&mut rhs);
                proof {
                    assert(names_view(lhs@) =~= old_self->0 + old_other->0);
                }
                Some(lhs)
            },
            (None, Some(rhs)) => Some(rhs),
            (lhs, None) => lhs,
        };
        let capacity = match other.capacity {
            Some(c) => Some(c),
            None => self.capacity,
        };
        RepoConfig { protected_branches, capacity }
    }

    /// The effective protected-branch list: the configured one, or empty.
    pub fn protected_branches(&self) -> (r: &[String])
        ensures
            names_view(r@) == (match self.protected_view() {
                Some(v) => v,
                None => Seq::<Seq<char>>::empty(),
            }),
    {
        match &self.protected_branches {
            Some(v) => v.as_slice(),
            None => {
                let r: &[String] = &[];
                proof {
                    assert(names_view(r@) =~= Seq::<Seq<char>>::empty());
                }
                r
            },
        }
    }

    /// The effective capacity: the configured one or the default, and `None`
    /// for a configured zero, which means "unbounded".
    pub open spec fn spec_capacity(&self) -> Option<usize> {
        let c = match self.capacity {
            Some(c) => c,
            None => DEFAULT_CAPACITY,
        };
        if c != 0 {
            Some(c)
        } else {
            None
        }
    }

    /// See [`Self::spec_capacity`].
    pub fn capacity(&self) -> (r: Option<usize>)
        ensures
            r == self.spec_capacity(),
    {
        let c = match self.capacity {
            Some(c) => c,
            None => DEFAULT_CAPACITY,
        };
        if c != 0 {
            Some(c)
        } else {
            None
        }
    }
}

impl Default for RepoConfig {
    fn default() -> (r: Self)
        ensures
            r.protected_branches is None,
            r.capacity is None,
    {
        RepoConfig { protected_branches: None, capacity: None }
    }
}

/// Whether `c` is a decimal digit.
pub open spec fn is_ascii_digit(c: char) -> bool {
    '0' as int <= c as int <= '9' as int
}

/// The value of one decimal digit.
pub open spec fn digit_val(c: char) -> int {
    c as int - '0' as int
}

/// The number a digit string denotes.
pub open spec fn digits_value(s: Seq<char>) -> int
    decreases s.len(),
{
    if s.len() == 0 {
        0
    } else {
        digits_value(s.drop_last()) * 10 + digit_val(s.last())
    }
}

/// Whether every character is a decimal digit.
pub open spec fn all_digits(s: Seq<char>) -> bool {
    forall|i: int| 0 <= i < s.len() ==> is_ascii_digit(s[i])
}

/// The digits of a capacity value: an optional leading plus sign is
/// allowed, as `usize::from_str` allows it.
pub open spec fn digits_part(s: Seq<char>) -> Seq<char> {
    if s.len() > 0 && s[0] == '+' {
        s.drop_first()
    } else {
        s
    }
}

/// What parsing a capacity string yields: the denoted number when the
/// string is one or more digits (after an optional plus) whose value fits
/// in `usize`, and nothing otherwise.
pub open spec fn parse_usize_spec(s: Seq<char>) -> Option<usize> {
    let d = digits_part(s);
    if d.len() > 0 && all_digits(d) && digits_value(d) <= usize::MAX {
        Some(digits_value(d) as usize)
    } else {
        None
    }
}

/// A digit string's value never shrinks as digits are appended.
proof fn lemma_digits_value_extend(d: Seq<char>, j: int)
    requires
        0 <= j <= d.len(),
        all_digits(d),
    ensures
        digits_value(d.take(j)) >= 0,
        digits_value(d) >= digits_value(d.take(j)),
    decreases d.len() - j, d.len(),
{
    if j == d.len() {
        assert(d.take(j) =~= d);
        if d.len() > 0 {
            lemma_digits_value_extend(d.drop_last(), d.len() - 1);
            assert(d.drop_last().take(d.len() - 1) =~= d.drop_last());
            let v = digits_value(d.drop_last());
            assert(v >= 0);
            assert(v * 10 >= 0) by (nonlinear_arith)
                requires
                    v >= 0,
            ;
        }
    } else {
        lemma_digits_value_extend(d, j + 1);
        let a = digits_value(d.take(j));
        let b = digits_value(d.take(j + 1));
        assert(d.take(j + 1).drop_last() =~= d.take(j));
        assert(d.take(j + 1).last() == d[j]);
        assert(b == a * 10 + digit_val(d[j]));
        assert(a >= 0) by {
            lemma_digits_value_nonneg(d, j);
        }
        assert(b >= a) by (nonlinear_arith)
            requires
                a >= 0,
                b == a * 10 + digit_val(d[j]),
                digit_val(d[j]) >= 0,
        ;
    }
}

/// A digit string denotes a number, never something negative.
proof fn lemma_digits_value_nonneg(d: Seq<char>, j: int)
    requires
        0 <= j <= d.len(),
        all_digits(d),
    ensures
        digits_value(d.take(j)) >= 0,
    decreases j,
{
    if j == 0 {
        assert(d.take(0) =~= Seq::<char>::empty());
    } else {
        lemma_digits_value_nonneg(d, j - 1);
        assert(d.take(j).drop_last() =~= d.take(j - 1));
        let a = digits_value(d.take(j - 1));
        assert(digits_value(d.take(j)) == a * 10 + digit_val(d.take(j).last()));
        assert(a * 10 >= 0) by (nonlinear_arith)
            requires
                a >= 0,
        ;
    }
}

/// Parse a capacity value the way `usize::from_str` would.
pub fn parse_usize(s: &str) -> (r: Option<usize>)
    ensures
        r == parse_usize_spec(s@),
{
    let n = s.unicode_len();
    let mut i: usize = 0;
    if n > 0 && s.get_char(0) == '+' {
        i = 1;
    }
    if i == n {
        return None;
    }
    let ghost d = digits_part(s@);
    let ghost start = i as int;
    proof {
        assert(d.take(0) =~= Seq::<char>::empty());
    }
    let mut acc: usize = 0;
    while i < n
        invariant
            start <= i <= n,
            n == s@.len(),
            start < n,
            d == digits_part(s@),
            d.len() == n - start,
            start == (if s@.len() > 0 && s@[0] == '+' {
                1int
            } else {
                0int
            }),
            forall|j: int| 0 <= j < d.len() ==> d[j] == s@[start + j],
            all_digits(d.take(i - start)),
            acc == digits_value(d.take(i - start)),
        decreases n - i,
    {
        let c = s.get_char(i);
        let cv = c as u32;
        proof {
            assert(d[i - start] == c);
        }
        if cv < 48 || cv > 57 {
            proof {
                assert(!is_ascii_digit(d[i - start]));
            }
            return None;
        }
        let dv = (cv - 48) as usize;
        proof {
            assert(dv == digit_val(c));
        }
        if acc > (usize::MAX - dv) / 10 {
            proof {
                let q = (usize::MAX - dv) as int / 10;
                vstd::arithmetic::div_mod::lemma_fundamental_div_mod(
                    usize::MAX - dv,
                    10,
                );
                assert(acc * 10 + dv > usize::MAX) by (nonlinear_arith)
                    requires
                        acc > q,
                        usize::MAX - dv == 10 * q + ((usize::MAX - dv) as int % 10),
                        0 <= (usize::MAX - dv) as int % 10 < 10,
                ;
                assert(d.take(i - start + 1).drop_last() =~= d.take(i - start));
                assert(d.take(i - start + 1).last() == d[i - start]);
                assert(digits_value(d.take(i - start + 1)) == acc * 10 + dv);
                if all_digits(d) {
                    lemma_digits_value_extend(d, i - start + 1);
                    assert(digits_value(d) > usize::MAX);
                }
            }
            return None;
        }
        proof {
            let q = (usize::MAX - dv) as int / 10;
            vstd::arithmetic::div_mod::lemma_fundamental_div_mod(usize::MAX - dv, 10);
            assert(acc * 10 + dv <= usize::MAX) by (nonlinear_arith)
                requires
                    acc <= q,
                    usize::MAX - dv == 10 * q + ((usize::MAX - dv) as int % 10),
                    0 <= (usize::MAX - dv) as int % 10 < 10,
                    dv >= 0,
            ;
        }
        acc = acc * 10 + dv;
        proof {
            assert(d.take(i - start + 1).drop_last() =~= d.take(i - start));
            assert(d.take(i - start + 1).last() == d[i - start]);
            assert forall|j: int| 0 <= j < i - start + 1 implies is_ascii_digit(
                #[trigger] d.take(i - start + 1)[j],
            ) by {
                assert(d.take(i - start + 1)[j] == d.take(i - start + 1)[j]);
                if j < i - start {
                    assert(d.take(i - start)[j] == d[j]);
                }
            }
        }
        i = i + 1;
    }
    proof {
        assert(d.take(d.len() as int) =~= d);
    }
    Some(acc)
}

/// The configuration key whose values accumulate into the
/// protected-branch list.
pub open spec fn protected_key() -> Seq<char> {
    "stack.protected-branch"@
}

/// The configuration key that sets the stack capacity.
pub open spec fn capacity_key() -> Seq<char> {
    "branch-stash.capacity"@
}

/// The characters of a key/value entry list.
pub open spec fn env_entries_view(v: Seq<(String, Option<String>)>) -> Seq<
    (Seq<char>, Option<Seq<char>>),
> {
    v.map_values(
        |e: (String, Option<String>)|
            (
                e.0@,
                match e.1 {
                    Some(s) => Some(s@),
                    None => None,
                },
            ),
    )
}

/// The protected-branch list a key/value stream leaves behind: every
/// value given under the protected-branch key, in order.
pub open spec fn env_protected(entries: Seq<(Seq<char>, Option<Seq<char>>)>) -> Option<
    Seq<Seq<char>>,
>
    decreases entries.len(),
{
    if entries.len() == 0 {
        None
    } else {
        let prev = env_protected(entries.drop_last());
        let e = entries.last();
        if e.0 == protected_key() && e.1 is Some {
            match prev {
                None => Some(seq![e.1->0]),
                Some(p) => Some(p.push(e.1->0)),
            }
        } else {
            prev
        }
    }
}

/// The capacity a key/value stream leaves behind: whatever the last
/// occurrence of the capacity key parses to.
pub open spec fn env_capacity(entries: Seq<(Seq<char>, Option<Seq<char>>)>) -> Option<usize>
    decreases entries.len(),
{
    if entries.len() == 0 {
        None
    } else {
        let e = entries.last();
        if e.0 == capacity_key() {
            match e.1 {
                Some(v) => parse_usize_spec(v),
                None => None,
            }
        } else {
            env_capacity(entries.drop_last())
        }
    }
}

impl RepoConfig {
    /// Read configuration from a stream of key/value pairs, as the
    /// environment supplies them: protected-branch values accumulate,
    /// the capacity key overwrites, anything else is ignored.
    pub fn from_env_iter(entries: Vec<(String, Option<String>)>) -> (r: Self)
        ensures
            r.protected_view() == env_protected(env_entries_view(entries@)),
            r.capacity == env_capacity(env_entries_view(entries@)),
    {
        let ghost ev = env_entries_view(entries@);
        let mut config = RepoConfig { protected_branches: None, capacity: None };
        let mut i: usize = 0;
        proof {
            assert(ev.take(0) =~= Seq::<(Seq<char>, Option<Seq<char>>)>::empty());
        }
        while i < entries.len()
            invariant
                i <= entries@.len(),
                ev == env_entries_view(entries@),
                config.protected_view() == env_protected(ev.take(i as int)),
                config.capacity == env_capacity(ev.take(i as int)),
            decreases entries@.len() - i,
        {
            let ghost before = config.protected_view();
            let e = &entries[i];
            proof {
                reveal_strlit("stack.protected-branch");
                reveal_strlit("branch-stash.capacity");
                assert(protected_key().len() == 22);
                assert(capacity_key().len() == 21);
                assert(ev[i as int] == (e.0@, match e.1 {
                    Some(s) => Some(s@),
                    None => None,
                }));
                assert(ev.take(i + 1).drop_last() =~= ev.take(i as int));
                assert(ev.take(i + 1).last() == ev[i as int]);
            }
            if crate::text::str_eq(e.0.as_str(), "stack.protected-branch") {
                match &e.1 {
                    Some(val) => {
                        let owned = val.clone();
                        config.protected_branches = match config.protected_branches {
                            Some(list) => {
                                let mut list = list;
                                list.push(owned);
                                proof {
                                    assert(names_view(list@) =~= before->0.push(val@));
                                }
                                Some(list)
                            },
                            None => {
                                let mut list: Vec<String> = Vec::new();
                                list.push(owned);
                                proof {
                                    assert(names_view(list@) =~= seq![val@]);
                                }
                                Some(list)
                            },
                        };
                    },
                    None => {},
                }
            } else if crate::text::str_eq(e.0.as_str(), "branch-stash.capacity") {
                config.capacity = match &e.1 {
                    Some(val) => parse_usize(val.as_str()),
                    None => None,
                };
            }
            i = i + 1;
        }
        proof {
            assert(ev.take(ev.len() as int) =~= ev);
        }
        config
    }

    /// The built-in protected branches, placed after the configured
    /// default branch.
    pub fn from_defaults_internal(default_branch: Option<String>) -> (r: Self)
        ensures
            r.capacity == Some(DEFAULT_CAPACITY),
            r.protected_view() == Some(
                (match default_branch {
                    Some(d) => seq![d@],
                    None => Seq::<Seq<char>>::empty(),
                }) + default_protected_names(),
            ),
    {
        let ghost head = (match default_branch {
            Some(ref d) => seq![d@],
            None => Seq::<Seq<char>>::empty(),
        });
        let mut protected: Vec<String> = Vec::new();
        match default_branch {
            Some(d) => {
                protected.push(d);
            },
            None => {},
        }
        protected.push("main".to_owned());
        protected.push("master".to_owned());
        protected.push("dev".to_owned());
        protected.push("stable".to_owned());
        proof {
            assert(names_view(protected@) =~= head + default_protected_names());
        }
        RepoConfig { protected_branches: Some(protected), capacity: Some(DEFAULT_CAPACITY) }
    }
}

/// The branch names protected out of the box.
pub open spec fn default_protected_names() -> Seq<Seq<char>> {
    seq!["main"@, "master"@, "dev"@, "stable"@]
}

} // verus!
