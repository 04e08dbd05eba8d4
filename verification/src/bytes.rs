//! Byte-sequence helpers: searching, slicing, line splitting, and the
//! recognition of inclusion-directive lines.
use vstd::prelude::*;

verus! {

/// Position of the first occurrence of `b` in `s`, if any.
pub open spec fn find_byte(s: Seq<u8>, b: u8) -> Option<int>
    decreases s.len(),
{
    if s.len() == 0 {
        None
    } else if s[0] == b {
        Some(0)
    } else {
        match find_byte(s.skip(1), b) {
            None => None,
            Some(i) => Some(i + 1),
        }
    }
}

/// `find_byte` returns the smallest position holding `b`, or `None` when no
/// position holds `b`.
pub proof fn lemma_find_byte(s: Seq<u8>, b: u8)
    ensures
        match find_byte(s, b) {
            None => forall|k: int| 0 <= k < s.len() ==> s[k] != b,
            Some(i) => 0 <= i < s.len() && s[i] == b && (forall|k: int| 0 <= k < i ==> s[k] != b),
        },
    decreases s.len(),
{
    if s.len() > 0 && s[0] != b {
        lemma_find_byte(s.skip(1), b);
        match find_byte(s.skip(1), b) {
            None => {
                assert forall|k: int| 0 <= k < s.len() implies s[k] != b by {
                    if k > 0 {
                        assert(s.skip(1)[k - 1] == s[k]);
                    }
                }
            },
            Some(i) => {
                assert(s.skip(1)[i] == s[i + 1]);
                assert forall|k: int| 0 <= k < i + 1 implies s[k] != b by {
                    if k > 0 {
                        assert(s.skip(1)[k - 1] == s[k]);
                    }
                }
            },
        }
    }
}

/// Position of the last occurrence of `b` in `s`, if any.
pub open spec fn rfind_byte(s: Seq<u8>, b: u8) -> Option<int>
    decreases s.len(),
{
    if s.len() == 0 {
        None
    } else if s[s.len() - 1] == b {
        Some(s.len() - 1)
    } else {
        rfind_byte(s.drop_last(), b)
    }
}

/// `rfind_byte` returns the largest position holding `b`, or `None` when no
/// position holds `b`.
pub proof fn lemma_rfind_byte(s: Seq<u8>, b: u8)
    ensures
        match rfind_byte(s, b) {
            None => forall|k: int| 0 <= k < s.len() ==> s[k] != b,
            Some(i) => 0 <= i < s.len() && s[i] == b && (forall|k: int| i < k < s.len() ==> s[k] != b),
        },
    decreases s.len(),
{
    if s.len() > 0 && s[s.len() - 1] != b {
        lemma_rfind_byte(s.drop_last(), b);
        assert(forall|k: int| 0 <= k < s.drop_last().len() ==> s.drop_last()[k] == s[k]);
    }
}

/// The text of a file split at newline bytes.  Terminators are dropped; a
/// final newline does not yield an extra empty line.  A carriage return is an
/// ordinary byte under this normalization.
pub open spec fn split_lines_spec(s: Seq<u8>) -> Seq<Seq<u8>>
    decreases s.len(),
{
    if s.len() == 0 {
        Seq::empty()
    } else {
        match find_byte(s, 10) {
            None => seq![s],
            Some(i) => {
                proof {
                    lemma_find_byte(s, 10);
                }
                seq![s.take(i)] + split_lines_spec(s.skip(i + 1))
            },
        }
    }
}

/// The ten bytes that open an inclusion directive: a hash sign, the word
/// formed of the letters i, n, c, l, u, d, e, a space, and a double quote.
pub open spec fn directive_prefix() -> Seq<u8> {
    seq![35u8, 105u8, 110u8, 99u8, 108u8, 117u8, 100u8, 101u8, 32u8, 34u8]
}

/// A line is a directive exactly when its first ten bytes are the prefix.
pub open spec fn is_directive(l: Seq<u8>) -> bool {
    l.len() >= 10 && l.take(10) == directive_prefix()
}

/// The directory part of a path: the bytes before the last slash, or empty
/// when the path holds no slash.
pub open spec fn parent_dir(p: Seq<u8>) -> Seq<u8> {
    match rfind_byte(p, 47) {
        None => Seq::empty(),
        Some(i) => p.take(i),
    }
}

/// First position `>= from` holding `b`, reported against the tail `v@.skip(from)`.
pub fn find_byte_from(v: &Vec<u8>, from: usize, b: u8) -> (r: Option<usize>)
    requires
        from <= v@.len(),
    ensures
        match r {
            None => find_byte(v@.skip(from as int), b) == None::<int>,
            Some(j) => from <= j < v@.len() && v@[j as int] == b
                && find_byte(v@.skip(from as int), b) == Some(j - from),
        },
{
    let mut k: usize = from;
    while k < v.len()
        invariant
            from <= k <= v@.len(),
            forall|t: int| from <= t < k ==> v@[t] != b,
        decreases v@.len() - k,
    {
        if v[k] == b {
            proof {
                lemma_find_byte(v@.skip(from as int), b);
                assert(forall|t: int| 0 <= t < v@.skip(from as int).len()
                    ==> v@.skip(from as int)[t] == v@[from + t]);
                assert(v@.skip(from as int)[k - from] == b);
            }
            return Some(k);
        }
        k += 1;
    }
    proof {
        lemma_find_byte(v@.skip(from as int), b);
        assert(forall|t: int| 0 <= t < v@.skip(from as int).len()
            ==> v@.skip(from as int)[t] == v@[from + t]);
    }
    None
}

/// A fresh vector holding the bytes of `v` from `a` up to `b`.
pub fn sub_vec(v: &Vec<u8>, a: usize, b: usize) -> (r: Vec<u8>)
    requires
        a <= b <= v@.len(),
    ensures
        r@ == v@.subrange(a as int, b as int),
{
    let mut r: Vec<u8> = Vec::new();
    let mut k: usize = a;
    while k < b
        invariant
            a <= k <= b <= v@.len(),
            r@ == v@.subrange(a as int, k as int),
        decreases b - k,
    {
        r.push(v[k]);
        k += 1;
        proof {
            assert(r@ =~= v@.subrange(a as int, k as int));
        }
    }
    r
}

/// Appends every byte of `src` to `dst`.
pub fn push_all(dst: &mut Vec<u8>, src: &Vec<u8>)
    ensures
        final(dst)@ == old(dst)@ + src@,
{
    let mut k: usize = 0;
    while k < src.len()
        invariant
            k <= src@.len(),
            dst@ == old(dst)@ + src@.take(k as int),
        decreases src@.len() - k,
    {
        dst.push(src[k]);
        k += 1;
        proof {
            assert(dst@ =~= old(dst)@ + src@.take(k as int));
        }
    }
    proof {
        assert(old(dst)@ + src@.take(src@.len() as int) =~= old(dst)@ + src@);
    }
}

/// Byte-wise equality of two vectors.
pub fn bytes_eq(a: &Vec<u8>, b: &Vec<u8>) -> (r: bool)
    ensures
        r == (a@ == b@),
{
    if a.len() != b.len() {
        proof {
            assert(a@ != b@);
        }
        return false;
    }
    let mut k: usize = 0;
    while k < a.len()
        invariant
            k <= a@.len(),
            a@.len() == b@.len(),
            forall|t: int| 0 <= t < k ==> a@[t] == b@[t],
        decreases a@.len() - k,
    {
        if a[k] != b[k] {
            return false;
        }
        k += 1;
    }
    proof {
        assert(a@ =~= b@);
    }
    true
}

/// Whether the line opens with the directive prefix.
pub fn line_is_directive(l: &Vec<u8>) -> (r: bool)
    ensures
        r == is_directive(l@),
{
    if l.len() < 10 {
        return false;
    }
    let r = l[0] == 35 && l[1] == 105 && l[2] == 110 && l[3] == 99 && l[4] == 108 && l[5] == 117
        && l[6] == 100 && l[7] == 101 && l[8] == 32 && l[9] == 34;
    proof {
        if r {
            assert(l@.take(10) =~= directive_prefix());
        } else {
            assert(l@.take(10) != directive_prefix()) by {
                if l@.take(10) == directive_prefix() {
                    assert(forall|t: int| 0 <= t < 10 ==> l@.take(10)[t] == directive_prefix()[t]);
                }
            }
        }
    }
    r
}

/// The directory part of a path, as a fresh vector.
pub fn parent_dir_of(p: &Vec<u8>) -> (r: Vec<u8>)
    ensures
        r@ == parent_dir(p@),
{
    let mut k: usize = p.len();
    while k > 0
        invariant
            k <= p@.len(),
            forall|t: int| k <= t < p@.len() ==> p@[t] != 47,
        decreases k,
    {
        if p[k - 1] == 47 {
            proof {
                lemma_rfind_byte(p@, 47);
            }
            return sub_vec(p, 0, k - 1);
        }
        k -= 1;
    }
    proof {
        lemma_rfind_byte(p@, 47);
    }
    Vec::new()
}

/// Splits a file's bytes into its lines, as `split_lines_spec` says.
pub fn split_lines(v: &Vec<u8>) -> (r: Vec<Vec<u8>>)
    ensures
        r@.map_values(|l: Vec<u8>| l@) == split_lines_spec(v@),
{
    let mut r: Vec<Vec<u8>> = Vec::new();
    let mut pos: usize = 0;
    proof {
        assert(v@.skip(0) =~= v@);
        assert(r@.map_values(|l: Vec<u8>| l@) + split_lines_spec(v@) =~= split_lines_spec(v@));
    }
    while pos < v.len()
        invariant
            pos <= v@.len(),
            split_lines_spec(v@) == r@.map_values(|l: Vec<u8>| l@) + split_lines_spec(
                v@.skip(pos as int),
            ),
        decreases v@.len() - pos,
    {
        let ghost tail = v@.skip(pos as int);
        let ghost prev = r@;
        match find_byte_from(v, pos, 10) {
            Some(j) => {
                let line = sub_vec(v, pos, j);
                proof {
                    assert(tail.len() > 0);
                    assert(find_byte(tail, 10) == Some(j - pos as int));
                    assert(tail.take(j - pos as int) =~= v@.subrange(pos as int, j as int));
                    assert(tail.skip(j - pos as int + 1) =~= v@.skip(j as int + 1));
                    assert(split_lines_spec(tail) == seq![line@] + split_lines_spec(
                        v@.skip(j as int + 1),
                    ));
                }
                r.push(line);
                pos = j + 1;
                proof {
                    assert(r@.map_values(|l: Vec<u8>| l@) =~= prev.map_values(|l: Vec<u8>| l@)
                        + seq![line@]);
                    assert(split_lines_spec(v@) =~= r@.map_values(|l: Vec<u8>| l@)
                        + split_lines_spec(v@.skip(pos as int)));
                }
            },
            None => {
                let line = sub_vec(v, pos, v.len());
                proof {
                    assert(tail.len() > 0);
                    assert(tail =~= v@.subrange(pos as int, v@.len() as int));
                    assert(split_lines_spec(tail) == seq![line@]);
                }
                r.push(line);
                pos = v.len();
                proof {
                    assert(v@.skip(pos as int) =~= Seq::<u8>::empty());
                    assert(r@.map_values(|l: Vec<u8>| l@) =~= prev.map_values(|l: Vec<u8>| l@)
                        + seq![line@]);
                    assert(split_lines_spec(v@) =~= r@.map_values(|l: Vec<u8>| l@)
                        + split_lines_spec(v@.skip(pos as int)));
                }
            },
        }
    }
    proof {
        assert(v@.skip(v@.len() as int) =~= Seq::<u8>::empty());
        assert(r@.map_values(|l: Vec<u8>| l@) + split_lines_spec(v@.skip(pos as int))
            =~= r@.map_values(|l: Vec<u8>| l@));
    }
    r
}

} // verus!
