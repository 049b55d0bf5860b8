//! Protocol versions of the channel handshake: three decimal numbers with
//! dots between them, as in `1.0.0`.

use vstd::prelude::*;
use vstd::string::StringSliceAdditionalSpecFns;

verus! {

/// A protocol version.
#[derive(Clone, Copy, Debug, PartialEq, Eq, Structural)]
pub struct Version {
    pub major: u64,
    pub minor: u64,
    pub patch: u64,
}

impl Version {
    /// `self` is older than `other`: by the major number, then the minor,
    /// then the patch.
    pub open spec fn older_than(self, other: Version) -> bool {
        self.major < other.major || (self.major == other.major && (self.minor < other.minor || (
        self.minor == other.minor && self.patch < other.patch)))
    }

    /// Whether `self` is older than `other`.
    pub fn is_older_than(&self, other: &Version) -> (b: bool)
        ensures
            b == self.older_than(*other),
    {
        self.major < other.major || (self.major == other.major && (self.minor < other.minor || (
        self.minor == other.minor && self.patch < other.patch)))
    }
}

/// The byte is a decimal digit.
pub open spec fn is_digit(b: u8) -> bool {
    48 <= b <= 57
}

/// The number that the digits `t` write.
pub open spec fn value_of(t: Seq<u8>) -> nat
    decreases t.len(),
{
    if t.len() == 0 {
        0
    } else {
        value_of(t.drop_last()) * 10 + (t.last() - 48) as nat
    }
}

/// `t` writes a number that fits: digits, at least one, and no zero in
/// front of others.
pub open spec fn is_number(t: Seq<u8>) -> bool {
    &&& t.len() > 0
    &&& forall|i: int| 0 <= i < t.len() ==> is_digit(#[trigger] t[i])
    &&& (t.len() > 1 ==> t[0] != 48)
    &&& value_of(t) <= u64::MAX
}

/// `text` is three numbers with a dot after the first, at `i`, and one
/// after the second, at `j`.
pub open spec fn splits_at(text: Seq<u8>, i: int, j: int) -> bool {
    &&& 0 <= i < j < text.len()
    &&& text[i] == 46
    &&& text[j] == 46
    &&& is_number(text.subrange(0, i))
    &&& is_number(text.subrange(i + 1, j))
    &&& is_number(text.subrange(j + 1, text.len() as int))
}

/// `text` writes the version `v`.
pub open spec fn writes(text: Seq<u8>, v: Version) -> bool {
    exists|i: int, j: int|
        #[trigger] splits_at(text, i, j) && v.major == value_of(text.subrange(0, i)) && v.minor
            == value_of(text.subrange(i + 1, j)) && v.patch == value_of(
            text.subrange(j + 1, text.len() as int),
        )
}

/// A longer run of digits writes no smaller number.
proof fn lemma_value_grows(t: Seq<u8>, k: int)
    requires
        0 <= k <= t.len(),
        forall|i: int| 0 <= i < t.len() ==> is_digit(#[trigger] t[i]),
    ensures
        value_of(t.subrange(0, k)) <= value_of(t),
    decreases t.len() - k,
{
    if k < t.len() {
        let u = t.drop_last();
        assert(u.subrange(0, k) =~= t.subrange(0, k));
        assert forall|i: int| 0 <= i < u.len() implies is_digit(#[trigger] u[i]) by {
            assert(u[i] == t[i]);
        }
        lemma_value_grows(u, k);
        assert(is_digit(t[t.len() - 1]));
    } else {
        assert(t.subrange(0, k) =~= t);
    }
}

/// A text has its dots in one place only: the numbers hold none.
proof fn lemma_one_split(text: Seq<u8>, i: int, j: int, a: int, b: int)
    requires
        splits_at(text, i, j),
        splits_at(text, a, b),
    ensures
        i == a,
        j == b,
{
    let first = text.subrange(0, i);
    let first2 = text.subrange(0, a);
    if a < i {
        assert(is_digit(first[a]));
    }
    if i < a {
        assert(is_digit(first2[i]));
    }
    let second = text.subrange(i + 1, j);
    let second2 = text.subrange(a + 1, b);
    if b < j {
        assert(is_digit(second[b - i - 1]));
    }
    if j < b {
        assert(is_digit(second2[j - a - 1]));
    }
}

/// Reads the number that starts at `from` and ends before `to`.
fn read_number(text: &[u8], from: usize, to: usize) -> (res: Option<u64>)
    requires
        from <= to <= text@.len(),
    ensures
        match res {
            Some(n) => is_number(text@.subrange(from as int, to as int)) && n == value_of(
                text@.subrange(from as int, to as int),
            ),
            None => !is_number(text@.subrange(from as int, to as int)),
        },
{
    let ghost t = text@.subrange(from as int, to as int);
    if from == to {
        return None;
    }
    if text[from] == 48 && to - from > 1 {
        assert(t[0] == 48);
        return None;
    }
    let mut n: u64 = 0;
    let mut k: usize = from;
    assert(t.subrange(0, 0) =~= Seq::<u8>::empty());
    while k < to
        invariant
            from <= k <= to <= text@.len(),
            t == text@.subrange(from as int, to as int),
            forall|i: int| 0 <= i < k - from ==> is_digit(#[trigger] t[i]),
            n == value_of(t.subrange(0, k - from)),
        decreases to - k,
    {
        let b = text[k];
        assert(b == t[k - from]);
        if b < 48 || b > 57 {
            return None;
        }
        proof {
            assert(t.subrange(0, k - from + 1).drop_last() =~= t.subrange(0, k - from));
        }
        let ghost longer = value_of(t.subrange(0, k - from + 1));
        let next = match n.checked_mul(10) {
            Some(m) => m.checked_add((b - 48) as u64),
            None => None,
        };
        match next {
            Some(m) => {
                n = m;
            },
            None => {
                proof {
                    if is_number(t) {
                        lemma_value_grows(t, k - from + 1);
                    }
                }
                return None;
            },
        }
        k = k + 1;
    }
    assert(t.subrange(0, to - from) =~= t);
    Some(n)
}

/// Index of the first byte from `from` on that is no digit; the length of
/// the text where all are digits.
fn end_of_digits(text: &[u8], from: usize) -> (k: usize)
    requires
        from <= text@.len(),
    ensures
        from <= k <= text@.len(),
        forall|i: int| from <= i < k ==> is_digit(#[trigger] text@[i]),
        k < text@.len() ==> !is_digit(text@[k as int]),
{
    let mut k: usize = from;
    while k < text.len() && text[k] >= 48 && text[k] <= 57
        invariant
            from <= k <= text@.len(),
            forall|i: int| from <= i < k ==> is_digit(#[trigger] text@[i]),
        decreases text@.len() - k,
    {
        k = k + 1;
    }
    k
}

/// Reads a version: the one that `text` writes, if it writes one.
pub fn parse_version(text: &str) -> (res: Option<Version>)
    ensures
        match res {
            Some(v) => writes(text.spec_bytes(), v),
            None => forall|v: Version| !writes(text.spec_bytes(), v),
        },
{
    let t = text.as_bytes();
    let n = t.len();
    let i = end_of_digits(t, 0);
    if i >= n || t[i] != 46 {
        proof {
            lemma_no_split(t@, i as int, None);
        }
        return None;
    }
    let j = end_of_digits(t, i + 1);
    if j >= n || t[j] != 46 {
        proof {
            lemma_no_split(t@, i as int, Some(j as int));
        }
        return None;
    }
    let parts = (read_number(t, 0, i), read_number(t, i + 1, j), read_number(t, j + 1, n));
    match parts {
        (Some(major), Some(minor), Some(patch)) => {
            assert(splits_at(t@, i as int, j as int));
            Some(Version { major, minor, patch })
        },
        _ => {
            proof {
                assert forall|v: Version| !writes(t@, v) by {
                    if writes(t@, v) {
                        let (a, b) = choose|a: int, b: int| #[trigger]
                            splits_at(t@, a, b) && v.major == value_of(t@.subrange(0, a));
                        lemma_dots(t@, i as int, j as int, a, b);
                    }
                }
            }
            None
        },
    }
}

/// Where digits run up to `i`, and from there up to `j`, a text that
/// splits has its dots at `i` and `j`.
proof fn lemma_dots(text: Seq<u8>, i: int, j: int, a: int, b: int)
    requires
        0 <= i < j <= text.len(),
        forall|k: int| 0 <= k < i ==> is_digit(#[trigger] text[k]),
        !is_digit(text[i]),
        forall|k: int| i + 1 <= k < j ==> is_digit(#[trigger] text[k]),
        j < text.len() ==> !is_digit(text[j]),
        splits_at(text, a, b),
    ensures
        a == i,
        b == j,
{
    let first = text.subrange(0, a);
    if a < i {
        assert(is_digit(text[a]));
    }
    if i < a {
        assert(is_digit(first[i]));
    }
    let second = text.subrange(a + 1, b);
    if b < j {
        assert(is_digit(text[b]));
    }
    if j < b {
        assert(is_digit(second[j - a - 1]));
    }
}

/// A text whose first run of digits does not end in a dot, or whose second
/// does not, writes no version.
proof fn lemma_no_split(text: Seq<u8>, i: int, second: Option<int>)
    requires
        0 <= i <= text.len(),
        forall|k: int| 0 <= k < i ==> is_digit(#[trigger] text[k]),
        i < text.len() ==> !is_digit(text[i]),
        match second {
            None => i == text.len() || text[i] != 46,
            Some(j) => {
                &&& i < j <= text.len()
                &&& forall|k: int| i + 1 <= k < j ==> is_digit(#[trigger] text[k])
                &&& j < text.len() ==> !is_digit(text[j])
                &&& (j == text.len() || text[j] != 46)
            },
        },
    ensures
        forall|v: Version| !writes(text, v),
{
    assert forall|v: Version| !writes(text, v) by {
        if writes(text, v) {
            let (a, b) = choose|a: int, b: int| #[trigger]
                splits_at(text, a, b) && v.major == value_of(text.subrange(0, a));
            let first = text.subrange(0, a);
            if a < i {
                assert(is_digit(text[a]));
            }
            if i < a {
                assert(is_digit(first[i]));
            }
            match second {
                None => {},
                Some(j) => {
                    let mid = text.subrange(a + 1, b);
                    if b < j {
                        assert(is_digit(text[b]));
                    }
                    if j < b {
                        assert(is_digit(mid[j - a - 1]));
                    }
                },
            }
        }
    }
}

/// A text writes one version at most.
pub proof fn lemma_writes_one_version(text: Seq<u8>, v: Version, w: Version)
    requires
        writes(text, v),
        writes(text, w),
    ensures
        v == w,
{
    let (i, j) = choose|i: int, j: int|
        #[trigger] splits_at(text, i, j) && v.major == value_of(text.subrange(0, i)) && v.minor
            == value_of(text.subrange(i + 1, j)) && v.patch == value_of(
            text.subrange(j + 1, text.len() as int),
        );
    let (a, b) = choose|a: int, b: int|
        #[trigger] splits_at(text, a, b) && w.major == value_of(text.subrange(0, a)) && w.minor
            == value_of(text.subrange(a + 1, b)) && w.patch == value_of(
            text.subrange(b + 1, text.len() as int),
        );
    lemma_one_split(text, i, j, a, b);
}

} // verus!
