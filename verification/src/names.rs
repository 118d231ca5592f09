//! Dotted attribute-path names.
//!
//! A name such as `user.profile.email` is an ordered sequence of identifier
//! segments separated by `.`; the first segment is the *base name*. The
//! reserved name `loop`, and every name starting with `loop.`, refer to the
//! magic iteration context and are never tracked.

use vstd::prelude::*;

verus! {

use vstd::string::StrSliceExecFns;

/// The characters of the reserved base name `loop`.
pub open spec fn loop_word() -> Seq<char> {
    seq!['l', 'o', 'o', 'p']
}

/// A name that must never be tracked: `loop` itself or anything below it.
pub open spec fn is_reserved(n: Seq<char>) -> bool {
    ||| n == loop_word()
    ||| (n.len() >= 5 && n.subrange(0, 5) == loop_word().push('.'))
}

/// Index of the last `.` in `n`, or `-1` if `n` holds no dot.
pub open spec fn last_dot_idx(n: Seq<char>) -> int
    decreases n.len(),
{
    if n.len() == 0 {
        -1
    } else if n.last() == '.' {
        n.len() - 1
    } else {
        last_dot_idx(n.drop_last())
    }
}

/// Index of the first `.` in `n`, or `-1` if `n` holds no dot.
pub open spec fn first_dot_idx(n: Seq<char>) -> int
    decreases n.len(),
{
    if n.len() == 0 {
        -1
    } else if n[0] == '.' {
        0
    } else {
        let r = first_dot_idx(n.drop_first());
        if r < 0 {
            -1
        } else {
            r + 1
        }
    }
}

/// The base (first) segment of a name: everything before the first dot.
pub open spec fn base_of(n: Seq<char>) -> Seq<char> {
    if first_dot_idx(n) < 0 {
        n
    } else {
        n.subrange(0, first_dot_idx(n))
    }
}

/// The second segment of a name with at least two segments.
pub open spec fn second_of(n: Seq<char>) -> Seq<char> {
    base_of(n.subrange(first_dot_idx(n) + 1, n.len() as int))
}

/// `last_dot_idx` finds a dot with nothing but non-dots after it,
/// and `-1` exactly when no dot occurs at all.
pub proof fn lemma_last_dot(n: Seq<char>)
    ensures
        -1 <= last_dot_idx(n) < n.len(),
        last_dot_idx(n) == -1 ==> forall|i: int| 0 <= i < n.len() ==> n[i] != '.',
        last_dot_idx(n) >= 0 ==> {
            &&& last_dot_idx(n) < n.len()
            &&& n[last_dot_idx(n)] == '.'
            &&& forall|i: int| last_dot_idx(n) < i < n.len() ==> n[i] != '.'
        },
    decreases n.len(),
{
    if n.len() == 0 {
    } else if n.last() == '.' {
    } else {
        let t = n.drop_last();
        lemma_last_dot(t);
        let r = last_dot_idx(t);
        if r < 0 {
            assert forall|i: int| 0 <= i < n.len() implies n[i] != '.' by {
                if i == n.len() - 1 {
                    assert(n[i] == n.last());
                } else {
                    assert(t[i] == n[i]);
                    assert(t[i] != '.');
                }
            }
        } else {
            assert(n[r] == t[r]);
            assert forall|i: int| r < i < n.len() implies n[i] != '.' by {
                if i == n.len() - 1 {
                    assert(n[i] == n.last());
                } else {
                    assert(t[i] == n[i]);
                    assert(t[i] != '.');
                }
            }
        }
    }
}

/// `first_dot_idx` finds a dot with nothing but non-dots before it,
/// and `-1` exactly when no dot occurs at all.
pub proof fn lemma_first_dot(n: Seq<char>)
    ensures
        -1 <= first_dot_idx(n) < n.len(),
        first_dot_idx(n) == -1 ==> forall|i: int| 0 <= i < n.len() ==> n[i] != '.',
        first_dot_idx(n) >= 0 ==> {
            &&& first_dot_idx(n) < n.len()
            &&& n[first_dot_idx(n)] == '.'
            &&& forall|i: int| 0 <= i < first_dot_idx(n) ==> n[i] != '.'
        },
    decreases n.len(),
{
    if n.len() == 0 {
    } else if n[0] == '.' {
    } else {
        let t = n.drop_first();
        lemma_first_dot(t);
        let r = first_dot_idx(t);
        if r < 0 {
            assert forall|i: int| 0 <= i < n.len() implies n[i] != '.' by {
                if i > 0 {
                    assert(t[i - 1] == n[i]);
                    assert(t[i - 1] != '.');
                }
            }
        } else {
            assert(n[r + 1] == t[r]);
            assert forall|i: int| 0 <= i < r + 1 implies n[i] != '.' by {
                if i > 0 {
                    assert(t[i - 1] == n[i]);
                    assert(t[i - 1] != '.');
                }
            }
        }
    }
}

/// The base segment of a non-reserved name is itself never reserved: a
/// base equal to `loop` would make the whole name `loop` or `loop.`-prefixed.
pub proof fn lemma_base_not_reserved(n: Seq<char>)
    requires
        n.len() > 0,
        !is_reserved(n),
    ensures
        !is_reserved(base_of(n)),
{
    lemma_first_dot(n);
    let fd = first_dot_idx(n);
    let b = base_of(n);
    if is_reserved(b) {
        if b == loop_word() {
            if fd < 0 {
                assert(n == loop_word());
            } else {
                assert(b.len() == 4);
                assert(fd == 4);
                assert(n[4] == '.');
                assert(n.len() >= 5);
                assert(n.subrange(0, 5) =~= loop_word().push('.')) by {
                    assert forall|i: int| 0 <= i < 5 implies n.subrange(0, 5)[i] == loop_word().push(
                        '.',
                    )[i] by {
                        if i < 4 {
                            assert(b[i] == n[i]);
                        }
                    }
                }
            }
        } else {
            assert(b.len() >= 5 && b.subrange(0, 5) == loop_word().push('.'));
            assert(b.subrange(0, 5)[4] == '.');
            if fd < 0 {
                assert(n[4] == '.');
            } else {
                assert(b[4] == n[4]);
                assert(n[4] == '.');
                assert(4 < fd ==> n[4] != '.');
                assert(fd <= 4 ==> b.len() <= 4);
            }
        }
    }
}

/// Whether this string is empty or reserved, hence ignored by the tracker.
pub fn is_ignored_name(s: &str) -> (r: bool)
    ensures
        r == (s@.len() == 0 || is_reserved(s@)),
{
    let n = s.unicode_len();
    if n == 0 {
        return true;
    }
    if n < 4 {
        assert(s@.len() != loop_word().len());
        assert(!is_reserved(s@));
        return false;
    }
    let c0 = s.get_char(0);
    let c1 = s.get_char(1);
    let c2 = s.get_char(2);
    let c3 = s.get_char(3);
    let head_is_loop = c0 == 'l' && c1 == 'o' && c2 == 'o' && c3 == 'p';
    if n == 4 {
        if head_is_loop {
            assert(s@ =~= loop_word());
            return true;
        }
        assert(s@ != loop_word() && s@.len() < 5);
        return false;
    }
    let c4 = s.get_char(4);
    if head_is_loop && c4 == '.' {
        assert(s@.subrange(0, 5) =~= loop_word().push('.'));
        return true;
    }
    assert(s@.subrange(0, 5) != loop_word().push('.')) by {
        if s@.subrange(0, 5) == loop_word().push('.') {
            assert(s@.subrange(0, 5)[0] == c0 && s@.subrange(0, 5)[1] == c1
                && s@.subrange(0, 5)[2] == c2 && s@.subrange(0, 5)[3] == c3
                && s@.subrange(0, 5)[4] == c4);
        }
    }
    assert(s@ != loop_word()) by {
        if s@ == loop_word() {
            assert(s@.len() == 4);
        }
    }
    false
}

/// Index of the last dot of `s`, or `None` if `s` holds no dot.
#[verifier::loop_isolation(false)]
pub fn find_last_dot(s: &str) -> (r: Option<usize>)
    ensures
        match r {
            Some(i) => last_dot_idx(s@) == i as int,
            None => last_dot_idx(s@) == -1,
        },
{
    proof {
        lemma_last_dot(s@);
    }
    let n = s.unicode_len();
    let mut i: usize = n;
    while i > 0
        invariant
            i <= n,
            n == s@.len(),
            forall|j: int| i <= j < n ==> s@[j] != '.',
        decreases i,
    {
        let c = s.get_char(i - 1);
        if c == '.' {
            proof {
                if last_dot_idx(s@) == -1 {
                    assert(s@[i - 1] != '.');
                }
                if last_dot_idx(s@) > i - 1 {
                    assert(s@[last_dot_idx(s@)] != '.');
                }
                if 0 <= last_dot_idx(s@) < i - 1 {
                    assert(s@[i - 1] != '.');
                }
            }
            return Some(i - 1);
        }
        i = i - 1;
    }
    proof {
        if last_dot_idx(s@) >= 0 {
            assert(s@[last_dot_idx(s@)] != '.');
        }
    }
    None
}

/// Index of the first dot of `s`, or `None` if `s` holds no dot.
#[verifier::loop_isolation(false)]
pub fn find_first_dot(s: &str) -> (r: Option<usize>)
    ensures
        match r {
            Some(i) => first_dot_idx(s@) == i as int,
            None => first_dot_idx(s@) == -1,
        },
{
    proof {
        lemma_first_dot(s@);
    }
    let n = s.unicode_len();
    let mut i: usize = 0;
    while i < n
        invariant
            i <= n,
            n == s@.len(),
            forall|j: int| 0 <= j < i ==> s@[j] != '.',
        decreases n - i,
    {
        let c = s.get_char(i);
        if c == '.' {
            proof {
                if first_dot_idx(s@) == -1 {
                    assert(s@[i as int] != '.');
                }
                if first_dot_idx(s@) < i {
                    assert(s@[first_dot_idx(s@)] != '.');
                }
                if first_dot_idx(s@) > i {
                    assert(s@[i as int] != '.');
                }
            }
            return Some(i);
        }
        i = i + 1;
    }
    proof {
        if first_dot_idx(s@) >= 0 {
            assert(s@[first_dot_idx(s@)] != '.');
        }
    }
    None
}

/// The base segment of a name: everything before the first dot,
/// or the whole name when it holds no dot.
pub fn base_segment(s: &str) -> (r: String)
    ensures
        r@ == base_of(s@),
{
    proof {
        lemma_first_dot(s@);
    }
    match find_first_dot(s) {
        Some(i) => {
            let r = s.substring_char(0, i);
            String::from_str(r)
        },
        None => {
            let r = String::from_str(s);
            assert(r@ =~= base_of(s@));
            r
        },
    }
}

/// Joins a parent path and an attribute segment with a dot.
pub fn join_dot(parent: &str, attr: &str) -> (r: String)
    ensures
        r@ == parent@ + seq!['.'] + attr@,
{
    let mut r = String::from_str(parent);
    r.append(".");
    r.append(attr);
    proof {
        reveal_strlit(".");
        assert(r@ =~= parent@ + seq!['.'] + attr@);
    }
    r
}

/// Character-wise string equality.
#[verifier::loop_isolation(false)]
pub fn str_eq(a: &str, b: &str) -> (r: bool)
    ensures
        r == (a@ == b@),
{
    let na = a.unicode_len();
    let nb = b.unicode_len();
    if na != nb {
        return false;
    }
    let mut i: usize = 0;
    while i < na
        invariant
            i <= na,
            na == a@.len(),
            na == b@.len(),
            forall|j: int| 0 <= j < i ==> a@[j] == b@[j],
        decreases na - i,
    {
        if a.get_char(i) != b.get_char(i) {
            return false;
        }
        i = i + 1;
    }
    proof {
        assert(a@ =~= b@);
    }
    true
}

} // verus!
