//! Byte-string helpers: trimming of whitespace runs, prefix tests and
//! lexicographic comparison over `Vec<u8>` text.
use vstd::prelude::*;

verus! {

/// Which bytes count as trimmable for one trimming pass.
#[derive(Clone, Copy)]
pub struct TrimSet {
    pub space: bool,
    pub tab: bool,
    pub newline: bool,
    pub carriage: bool,
}

pub open spec fn in_set(ts: TrimSet, b: u8) -> bool {
    ||| (b == 32 && ts.space)
    ||| (b == 9 && ts.tab)
    ||| (b == 10 && ts.newline)
    ||| (b == 13 && ts.carriage)
}

/// Whitespace as trimmed from scalar prefixes and suffixes.
pub open spec fn ws_set() -> TrimSet {
    TrimSet { space: true, tab: true, newline: true, carriage: true }
}

/// Whitespace as trimmed around multi-line array element comments.
pub open spec fn atn_set() -> TrimSet {
    TrimSet { space: true, tab: true, newline: true, carriage: false }
}

/// Only line feeds, as stripped from the end of key suffix decor.
pub open spec fn nl_set() -> TrimSet {
    TrimSet { space: false, tab: false, newline: true, carriage: false }
}

/// Length of the longest prefix of `s` made of bytes in `ts`.
pub open spec fn run_front(ts: TrimSet, s: Seq<u8>) -> int
    decreases s.len(),
{
    if s.len() == 0 || !in_set(ts, s[0]) {
        0
    } else {
        1 + run_front(ts, s.subrange(1, s.len() as int))
    }
}

/// Length of the longest suffix of `s` made of bytes in `ts`.
pub open spec fn run_back(ts: TrimSet, s: Seq<u8>) -> int
    decreases s.len(),
{
    if s.len() == 0 || !in_set(ts, s[s.len() - 1]) {
        0
    } else {
        1 + run_back(ts, s.subrange(0, s.len() - 1))
    }
}

pub open spec fn trim_front(ts: TrimSet, s: Seq<u8>) -> Seq<u8> {
    s.subrange(run_front(ts, s), s.len() as int)
}

pub open spec fn trim_back(ts: TrimSet, s: Seq<u8>) -> Seq<u8> {
    s.subrange(0, s.len() - run_back(ts, s))
}

/// Trim on both ends.
pub open spec fn trim_both(ts: TrimSet, s: Seq<u8>) -> Seq<u8> {
    trim_back(ts, trim_front(ts, s))
}

pub proof fn lemma_run_front_bounds(ts: TrimSet, s: Seq<u8>)
    ensures
        0 <= run_front(ts, s) <= s.len(),
        forall|k: int| 0 <= k < run_front(ts, s) ==> in_set(ts, s[k]),
        run_front(ts, s) < s.len() ==> !in_set(ts, s[run_front(ts, s)]),
    decreases s.len(),
{
    if s.len() > 0 && in_set(ts, s[0]) {
        let t = s.subrange(1, s.len() as int);
        lemma_run_front_bounds(ts, t);
        assert(forall|k: int| 1 <= k < run_front(ts, s) ==> s[k] == t[k - 1]);
    }
}

pub proof fn lemma_run_back_bounds(ts: TrimSet, s: Seq<u8>)
    ensures
        0 <= run_back(ts, s) <= s.len(),
        forall|k: int| s.len() - run_back(ts, s) <= k < s.len() ==> in_set(ts, s[k]),
        run_back(ts, s) < s.len() ==> !in_set(ts, s[s.len() - 1 - run_back(ts, s)]),
    decreases s.len(),
{
    if s.len() > 0 && in_set(ts, s[s.len() - 1]) {
        let t = s.subrange(0, s.len() - 1);
        lemma_run_back_bounds(ts, t);
        assert(forall|k: int| 0 <= k < s.len() - 1 ==> s[k] == t[k]);
    }
}

/// `run_front` is determined by any witness index pair.
pub proof fn lemma_run_front_is(ts: TrimSet, s: Seq<u8>, i: int)
    requires
        0 <= i <= s.len(),
        forall|k: int| 0 <= k < i ==> in_set(ts, s[k]),
        i < s.len() ==> !in_set(ts, s[i]),
    ensures
        run_front(ts, s) == i,
    decreases s.len(),
{
    if s.len() > 0 && in_set(ts, s[0]) {
        let t = s.subrange(1, s.len() as int);
        assert(forall|k: int| 0 <= k < i - 1 ==> t[k] == s[k + 1]);
        lemma_run_front_is(ts, t, i - 1);
    }
}

pub proof fn lemma_run_back_is(ts: TrimSet, s: Seq<u8>, j: int)
    requires
        0 <= j <= s.len(),
        forall|k: int| j <= k < s.len() ==> in_set(ts, s[k]),
        j > 0 ==> !in_set(ts, s[j - 1]),
    ensures
        run_back(ts, s) == s.len() - j,
    decreases s.len(),
{
    if s.len() > 0 && in_set(ts, s[s.len() - 1]) {
        let t = s.subrange(0, s.len() - 1);
        lemma_run_back_is(ts, t, j);
    }
}

impl TrimSet {
    /// Whether the byte is in this trim set.
    pub fn has(self, b: u8) -> (r: bool)
        ensures
            r == in_set(self, b),
    {
        (b == 32 && self.space) || (b == 9 && self.tab) || (b == 10 && self.newline) || (b == 13
            && self.carriage)
    }
}

/// Copy `s[from..to]` into a fresh vector.
pub fn copy_range(s: &Vec<u8>, from: usize, to: usize) -> (r: Vec<u8>)
    requires
        from <= to <= s@.len(),
    ensures
        r@ == s@.subrange(from as int, to as int),
{
    let mut r: Vec<u8> = Vec::new();
    let mut k = from;
    while k < to
        invariant
            from <= k <= to <= s@.len(),
            r@ == s@.subrange(from as int, k as int),
        decreases to - k,
    {
        r.push(s[k]);
        k = k + 1;
        proof {
            assert(r@ =~= s@.subrange(from as int, k as int));
        }
    }
    r
}

/// Trim bytes of `ts` from the front of `s`, from the back, or from both ends.
pub fn trim(s: &Vec<u8>, ts: TrimSet, front: bool, back: bool) -> (r: Vec<u8>)
    ensures
        front && back ==> r@ == trim_both(ts, s@),
        front && !back ==> r@ == trim_front(ts, s@),
        !front && back ==> r@ == trim_back(ts, s@),
        !front && !back ==> r@ == s@,
{
    let mut i: usize = 0;
    if front {
        while i < s.len() && ts.has(s[i])
            invariant
                0 <= i <= s@.len(),
                forall|k: int| 0 <= k < i ==> in_set(ts, s@[k]),
            decreases s@.len() - i,
        {
            i = i + 1;
        }
        proof {
            lemma_run_front_is(ts, s@, i as int);
        }
    }
    let mut j: usize = s.len();
    if back {
        while j > i && ts.has(s[j - 1])
            invariant
                i <= j <= s@.len(),
                forall|k: int| j <= k < s@.len() ==> in_set(ts, s@[k]),
            decreases j,
        {
            j = j - 1;
        }
    }
    let r = copy_range(s, i, j);
    proof {
        let fs = trim_front(ts, s@);
        if front && back {
            // After the front scan, i is the front run; show j matches the back run of fs.
            assert(forall|k: int| 0 <= k < fs.len() ==> fs[k] == s@[k + i]);
            if j > i {
                lemma_run_back_is(ts, fs, j - i);
            } else {
                lemma_run_back_is(ts, fs, 0);
            }
            assert(r@ =~= trim_back(ts, fs));
        } else if front {
            assert(r@ =~= fs);
        } else if back {
            if j > 0 {
                lemma_run_back_is(ts, s@, j as int);
            } else {
                lemma_run_back_is(ts, s@, 0);
            }
            assert(r@ =~= trim_back(ts, s@));
        } else {
            assert(r@ =~= s@);
        }
    }
    r
}

/// Does `s` start with byte `b`?
pub open spec fn starts_with_byte(s: Seq<u8>, b: u8) -> bool {
    s.len() > 0 && s[0] == b
}

pub fn starts_with(s: &Vec<u8>, b: u8) -> (r: bool)
    ensures
        r == starts_with_byte(s@, b),
{
    s.len() > 0 && s[0] == b
}

pub open spec fn contains_byte(s: Seq<u8>, b: u8) -> bool {
    exists|k: int| 0 <= k < s.len() && s[k] == b
}

pub fn contains(s: &Vec<u8>, b: u8) -> (r: bool)
    ensures
        r == contains_byte(s@, b),
{
    let mut k: usize = 0;
    while k < s.len()
        invariant
            0 <= k <= s@.len(),
            forall|m: int| 0 <= m < k ==> s@[m] != b,
        decreases s@.len() - k,
    {
        if s[k] == b {
            return true;
        }
        k = k + 1;
    }
    false
}

/// Byte-wise equality of two vectors.
pub fn bytes_eq(a: &Vec<u8>, b: &Vec<u8>) -> (r: bool)
    ensures
        r == (a@ == b@),
{
    if a.len() != b.len() {
        proof {
            assert(a@.len() != b@.len());
        }
        return false;
    }
    let mut k: usize = 0;
    while k < a.len()
        invariant
            0 <= k <= a@.len(),
            a@.len() == b@.len(),
            forall|m: int| 0 <= m < k ==> a@[m] == b@[m],
        decreases a@.len() - k,
    {
        if a[k] != b[k] {
            return false;
        }
        k = k + 1;
    }
    proof {
        assert(a@ =~= b@);
    }
    true
}

/// Strict byte-lexicographic order, the order `str` comparison uses.
pub open spec fn lex_lt(a: Seq<u8>, b: Seq<u8>) -> bool
    decreases a.len(),
{
    if b.len() == 0 {
        false
    } else if a.len() == 0 {
        true
    } else if a[0] < b[0] {
        true
    } else if a[0] > b[0] {
        false
    } else {
        lex_lt(a.subrange(1, a.len() as int), b.subrange(1, b.len() as int))
    }
}

pub fn lex_lt_exec(a: &Vec<u8>, b: &Vec<u8>) -> (r: bool)
    ensures
        r == lex_lt(a@, b@),
{
    let mut k: usize = 0;
    proof {
        assert(a@.subrange(0, a@.len() as int) =~= a@);
        assert(b@.subrange(0, b@.len() as int) =~= b@);
    }
    loop
        invariant
            0 <= k <= a@.len(),
            k <= b@.len(),
            forall|m: int| 0 <= m < k ==> a@[m] == b@[m],
            lex_lt(a@, b@) == lex_lt(a@.subrange(k as int, a@.len() as int), b@.subrange(k as int, b@.len() as int)),
        decreases a@.len() - k,
    {
        if k == b.len() {
            return false;
        }
        if k == a.len() {
            return true;
        }
        if a[k] < b[k] {
            return true;
        }
        if a[k] > b[k] {
            return false;
        }
        proof {
            let sa = a@.subrange(k as int, a@.len() as int);
            let sb = b@.subrange(k as int, b@.len() as int);
            assert(sa.subrange(1, sa.len() as int) =~= a@.subrange(k + 1, a@.len() as int));
            assert(sb.subrange(1, sb.len() as int) =~= b@.subrange(k + 1, b@.len() as int));
        }
        k = k + 1;
    }
}

/// `prefix + s`: a fresh vector holding `pre` then `s`.
pub fn concat3(a: &Vec<u8>, b: &Vec<u8>, c: &Vec<u8>) -> (r: Vec<u8>)
    ensures
        r@ == a@ + b@ + c@,
{
    let mut r: Vec<u8> = Vec::new();
    append_all(&mut r, a);
    append_all(&mut r, b);
    append_all(&mut r, c);
    proof {
        assert(r@ =~= a@ + b@ + c@);
    }
    r
}

/// Push every byte of `src` onto `dst`.
pub fn append_all(dst: &mut Vec<u8>, src: &Vec<u8>)
    ensures
        final(dst)@ == old(dst)@ + src@,
{
    let mut k: usize = 0;
    while k < src.len()
        invariant
            0 <= k <= src@.len(),
            dst@ == old(dst)@ + src@.subrange(0, k as int),
        decreases src@.len() - k,
    {
        dst.push(src[k]);
        k = k + 1;
        proof {
            assert(old(dst)@ + src@.subrange(0, k as int) =~= dst@);
        }
    }
    proof {
        assert(dst@ =~= old(dst)@ + src@);
    }
}

} // verus!
