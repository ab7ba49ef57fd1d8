//! The drive filesystem interface and 8.3 filename normalization.
//!
//! Every name that reaches a drive passes through [`to_8_3`]: uppercase,
//! restricted character set, name truncated to 8 characters and extension to
//! 3, an empty name replaced by `_`.

use vstd::prelude::*;

use crate::error::{CpmError, CpmResult};

verus! {

/// True of the characters that may appear in a normalized 8.3 name
/// (uppercase letters, digits, and CP/M's permitted punctuation).
pub open spec fn is_name_char(c: char) -> bool {
    let v = c as u32;
    ('A' as u32 <= v && v <= 'Z' as u32) || ('0' as u32 <= v && v <= '9' as u32) || v
        == '$' as u32 || v == '#' as u32 || v == '@' as u32 || v == '!' as u32 || v == '%' as u32
        || v == '\'' as u32 || v == '`' as u32 || v == '(' as u32 || v == ')' as u32 || v
        == '{' as u32 || v == '}' as u32 || v == '~' as u32 || v == '^' as u32 || v == '-' as u32
        || v == '_' as u32
}

/// ASCII uppercase of a single character; anything but `a`-`z` is unchanged.
pub open spec fn upper_char(c: char) -> char {
    if 'a' as u32 <= c as u32 && c as u32 <= 'z' as u32 {
        (c as u32 - 32) as char
    } else {
        c
    }
}

/// ASCII uppercase of a character sequence.
pub open spec fn upper_seq(s: Seq<char>) -> Seq<char> {
    s.map_values(|c: char| upper_char(c))
}

/// Index of the last `.` in `s`, or -1 if there is none.
pub open spec fn last_dot(s: Seq<char>) -> int
    decreases s.len(),
{
    if s.len() == 0 {
        -1
    } else if s.last() == '.' {
        s.len() - 1
    } else {
        last_dot(s.drop_last())
    }
}

/// The subsequence of characters that are valid in an 8.3 name, in order.
pub open spec fn clean_83(s: Seq<char>) -> Seq<char>
    decreases s.len(),
{
    if s.len() == 0 {
        Seq::empty()
    } else {
        let rest = clean_83(s.drop_last());
        if is_name_char(s.last()) {
            rest.push(s.last())
        } else {
            rest
        }
    }
}

/// `s` cut to at most `n` elements.
pub open spec fn take_up_to(s: Seq<char>, n: int) -> Seq<char> {
    if s.len() <= n {
        s
    } else {
        s.take(n)
    }
}

/// The name part of the 8.3 normalization: everything before the last dot,
/// uppercased, stripped of invalid characters, cut to 8 characters, and
/// replaced by `_` when nothing is left.
pub open spec fn norm_name_part(s: Seq<char>) -> Seq<char> {
    let u = upper_seq(s);
    let d = last_dot(u);
    let cn = take_up_to(
        clean_83(
            if d < 0 {
                u
            } else {
                u.take(d)
            },
        ),
        8,
    );
    if cn.len() == 0 {
        seq!['_']
    } else {
        cn
    }
}

/// The extension part of the 8.3 normalization: everything after the last
/// dot, uppercased, stripped of invalid characters, cut to 3 characters;
/// empty when there is no dot.
pub open spec fn norm_ext_part(s: Seq<char>) -> Seq<char> {
    let u = upper_seq(s);
    let d = last_dot(u);
    if d < 0 {
        Seq::<char>::empty()
    } else {
        take_up_to(clean_83(u.skip(d + 1)), 3)
    }
}

/// The 8.3 normalization of a filename: uppercase, split at the last dot,
/// both parts stripped of invalid characters, the name cut to 8 characters
/// and the extension to 3, an empty name replaced by `_`.
pub open spec fn normalize_83(s: Seq<char>) -> Seq<char> {
    if norm_ext_part(s).len() == 0 {
        norm_name_part(s)
    } else {
        norm_name_part(s) + seq!['.'] + norm_ext_part(s)
    }
}

/// Relies on String::from_utf8: a sequence of ASCII bytes is valid UTF-8 and
/// decodes to exactly those characters.
#[verifier::external_body]
pub fn string_from_ascii(bytes: Vec<u8>) -> (r: String)
    requires
        forall|i: int| 0 <= i < bytes@.len() ==> bytes@[i] < 0x80,
    ensures
        r@ == bytes@.map_values(|b: u8| b as char),
{
    String::from_utf8(bytes).unwrap_or_default()
}

/// Uppercasing maps no character to or from `.`.
proof fn lemma_upper_dot(c: char)
    ensures
        (upper_char(c) == '.') <==> (c == '.'),
{
    if 'a' as u32 <= c as u32 && c as u32 <= 'z' as u32 {
        assert(upper_char(c) as u32 == c as u32 - 32);
        assert(upper_char(c) as u32 != '.' as u32);
    }
}

/// If `s[k]` is a dot and nothing later is, `k` is the last dot.
pub proof fn lemma_last_dot_at_pub(s: Seq<char>, k: int)
    requires
        0 <= k < s.len(),
        s[k] == '.',
        forall|j: int| k < j < s.len() ==> s[j] != '.',
    ensures
        last_dot(s) == k,
    decreases s.len(),
{
    if k == s.len() - 1 {
    } else {
        assert(s.last() != '.');
        assert(s.drop_last()[k] == '.');
        lemma_last_dot_at_pub(s.drop_last(), k);
    }
}

/// A sequence without dots has no last dot.
pub proof fn lemma_last_dot_none_pub(s: Seq<char>)
    requires
        forall|j: int| 0 <= j < s.len() ==> s[j] != '.',
    ensures
        last_dot(s) == -1,
    decreases s.len(),
{
    if s.len() > 0 {
        lemma_last_dot_none_pub(s.drop_last());
    }
}

/// Collect the valid 8.3 characters of `s[from..to]`, uppercased, keeping at
/// most `limit` of them, as ASCII bytes.
fn clean_range(s: &str, from: usize, to: usize, limit: usize) -> (r: Vec<u8>)
    requires
        from <= to <= s@.len(),
    ensures
        r@.map_values(|b: u8| b as char) == take_up_to(
            clean_83(upper_seq(s@.subrange(from as int, to as int))),
            limit as int,
        ),
        forall|k: int| 0 <= k < r@.len() ==> r@[k] < 0x80,
        r@.len() <= limit,
{
    let mut r: Vec<u8> = Vec::new();
    let mut j: usize = from;
    proof {
        assert(s@.subrange(from as int, from as int) =~= Seq::<char>::empty());
        assert(upper_seq(Seq::<char>::empty()) =~= Seq::<char>::empty());
        assert(r@.map_values(|b: u8| b as char) =~= Seq::<char>::empty());
    }
    while j < to
        invariant
            from <= j <= to <= s@.len(),
            r@.len() <= limit,
            forall|k: int| 0 <= k < r@.len() ==> r@[k] < 0x80,
            r@.map_values(|b: u8| b as char) == take_up_to(
                clean_83(upper_seq(s@.subrange(from as int, j as int))),
                limit as int,
            ),
            r@.len() == take_up_to(
                clean_83(upper_seq(s@.subrange(from as int, j as int))),
                limit as int,
            ).len(),
        decreases to - j,
    {
        let c = s.get_char(j);
        let cv = c as u32;
        let up: u32 = if 97 <= cv && cv <= 122 {
            cv - 32
        } else {
            cv
        };
        let valid: bool = (65 <= up && up <= 90) || (48 <= up && up <= 57) || up == 36 || up == 35
            || up == 64 || up == 33 || up == 37 || up == 39 || up == 96 || up == 40 || up == 41
            || up == 123 || up == 125 || up == 126 || up == 94 || up == 45 || up == 95;
        proof {
            assert(up == upper_char(c) as u32);
            assert(valid == is_name_char(upper_char(c)));
            let pre = s@.subrange(from as int, j as int);
            let post = s@.subrange(from as int, j as int + 1);
            assert(post =~= pre.push(s@[j as int]));
            let w = upper_seq(pre);
            assert(upper_seq(post) =~= w.push(upper_char(s@[j as int])));
            assert((w.push(upper_char(s@[j as int]))).drop_last() =~= w);
            assert(clean_83(upper_seq(post)) == if is_name_char(upper_char(s@[j as int])) {
                clean_83(w).push(upper_char(s@[j as int]))
            } else {
                clean_83(w)
            });
        }
        if valid && r.len() < limit {
            let b = up as u8;
            proof {
                let pre = s@.subrange(from as int, j as int);
                let full = clean_83(upper_seq(pre));
                assert(full.len() == r@.len());
                assert((r@.push(b)).map_values(|x: u8| x as char) =~= r@.map_values(
                    |x: u8| x as char,
                ).push(b as char));
                assert(b as char == upper_char(s@[j as int]));
            }
            r.push(b);
        } else if valid {
            proof {
                let pre = s@.subrange(from as int, j as int);
                let full = clean_83(upper_seq(pre));
                assert(full.len() >= limit);
                assert(take_up_to(full.push(upper_char(s@[j as int])), limit as int) =~= take_up_to(
                    full,
                    limit as int,
                ));
            }
        }
        j += 1;
    }
    proof {
        assert(s@.subrange(from as int, to as int) == s@.subrange(from as int, j as int));
    }
    r
}

/// Convert a filename to CP/M 8.3 form: uppercase, invalid characters
/// removed, name cut to 8 characters and extension to 3, an empty name
/// replaced by `_`.
pub fn to_8_3(filename: &str) -> (r: String)
    ensures
        r@ == normalize_83(filename@),
{
    let n: usize = filename.unicode_len();
    // Find the last '.', scanning forward.
    let mut dot: usize = n;  // n means: none found
    let mut i: usize = 0;
    while i < n
        invariant
            i <= n,
            n == filename@.len(),
            dot == n || (dot < i && filename@[dot as int] == '.'),
            dot == n ==> forall|k: int| 0 <= k < i ==> filename@[k] != '.',
            dot < n ==> forall|k: int| dot < k < i ==> filename@[k] != '.',
        decreases n - i,
    {
        if filename.get_char(i) == '.' {
            dot = i;
        }
        i += 1;
    }
    let ghost u = upper_seq(filename@);
    proof {
        assert(u.len() == n);
        assert forall|k: int| 0 <= k < n implies (u[k] == '.') == (filename@[k] == '.') by {
            lemma_upper_dot(filename@[k]);
        }
        if dot == n {
            lemma_last_dot_none_pub(u);
        } else {
            lemma_last_dot_at_pub(u, dot as int);
        }
    }
    let name_end: usize = if dot == n {
        n
    } else {
        dot
    };
    let ext_start: usize = if dot == n {
        n
    } else {
        dot + 1
    };
    let name = clean_range(filename, 0, name_end, 8);
    let ext = clean_range(filename, ext_start, n, 3);
    proof {
        let d = last_dot(u);
        if dot == n {
            assert(filename@.subrange(0, n as int) =~= filename@);
            assert(upper_seq(filename@.subrange(0, name_end as int)) =~= u);
            assert(filename@.subrange(n as int, n as int) =~= Seq::<char>::empty());
            assert(upper_seq(Seq::<char>::empty()) =~= Seq::<char>::empty());
        } else {
            assert(d == dot as int);
            assert(upper_seq(filename@.subrange(0, name_end as int)) =~= u.take(d));
            assert(upper_seq(filename@.subrange(ext_start as int, n as int)) =~= u.skip(d + 1));
        }
    }
    let mut out: Vec<u8>;
    if name.len() == 0 {
        out = Vec::new();
        out.push(95);
        proof {
            assert(out@.map_values(|b: u8| b as char) =~= seq!['_']);
        }
    } else {
        out = name;
    }
    let ghost name_chars = out@.map_values(|b: u8| b as char);
    if ext.len() > 0 {
        out.push(46);
        proof {
            assert(out@.map_values(|b: u8| b as char) =~= name_chars + seq!['.']);
            assert(ext@.map_values(|b: u8| b as char).take(0) =~= Seq::<char>::empty());
            assert(out@.map_values(|b: u8| b as char) =~= name_chars + seq!['.']
                + ext@.map_values(|b: u8| b as char).take(0));
        }
        let mut k: usize = 0;
        while k < ext.len()
            invariant
                k <= ext@.len(),
                forall|t: int| 0 <= t < ext@.len() ==> ext@[t] < 0x80,
                forall|t: int| 0 <= t < out@.len() ==> out@[t] < 0x80,
                out@.map_values(|b: u8| b as char) =~= name_chars + seq!['.'] + ext@.map_values(
                    |b: u8| b as char,
                ).take(k as int),
            decreases ext@.len() - k,
        {
            let b = ext[k];
            let ghost prev = out@;
            out.push(b);
            proof {
                assert(out@ =~= prev.push(b));
                assert(out@.map_values(|x: u8| x as char) =~= prev.map_values(
                    |x: u8| x as char,
                ).push(b as char));
                assert(ext@.map_values(|x: u8| x as char).take(k as int + 1) =~= ext@.map_values(
                    |x: u8| x as char,
                ).take(k as int).push(ext@[k as int] as char));
                assert(out@.map_values(|x: u8| x as char) =~= name_chars + seq!['.']
                    + ext@.map_values(|x: u8| x as char).take(k as int + 1));
            }
            k += 1;
        }
        proof {
            assert(ext@.map_values(|x: u8| x as char).take(ext@.len() as int) =~= ext@.map_values(
                |x: u8| x as char,
            ));
        }
    }
    let r = string_from_ascii(out);
    proof {
        assert(r@ =~= normalize_83(filename@));
    }
    r
}

proof fn lemma_clean_chars(s: Seq<char>)
    ensures
        clean_83(s).len() <= s.len(),
        forall|k: int| 0 <= k < clean_83(s).len() ==> is_name_char(#[trigger] clean_83(s)[k]),
    decreases s.len(),
{
    if s.len() > 0 {
        lemma_clean_chars(s.drop_last());
    }
}

proof fn lemma_clean_id(s: Seq<char>)
    requires
        forall|k: int| 0 <= k < s.len() ==> is_name_char(#[trigger] s[k]),
    ensures
        clean_83(s) == s,
    decreases s.len(),
{
    if s.len() > 0 {
        lemma_clean_id(s.drop_last());
        assert(clean_83(s) =~= s);
    } else {
        assert(clean_83(s) =~= s);
    }
}

proof fn lemma_upper_id(s: Seq<char>)
    requires
        forall|k: int| 0 <= k < s.len() ==> upper_char(#[trigger] s[k]) == s[k],
    ensures
        upper_seq(s) == s,
{
    assert(upper_seq(s) =~= s);
}

/// The parts of a normalized name: the name is nonempty, at most 8
/// characters and all valid; the extension is at most 3 and all valid; the
/// join dot is found again as the last dot of the result.
proof fn lemma_normalize_structure(s: Seq<char>)
    ensures
        1 <= norm_name_part(s).len() <= 8,
        norm_ext_part(s).len() <= 3,
        forall|k: int|
            0 <= k < norm_name_part(s).len() ==> is_name_char(#[trigger] norm_name_part(s)[k]),
        forall|k: int|
            0 <= k < norm_ext_part(s).len() ==> is_name_char(#[trigger] norm_ext_part(s)[k]),
        last_dot(normalize_83(s)) == (if norm_ext_part(s).len() == 0 {
            -1int
        } else {
            norm_name_part(s).len() as int
        }),
{
    let u = upper_seq(s);
    let d = last_dot(u);
    let raw_name = if d < 0 {
        u
    } else {
        u.take(d)
    };
    let raw_ext = if d < 0 {
        Seq::<char>::empty()
    } else {
        u.skip(d + 1)
    };
    lemma_clean_chars(raw_name);
    lemma_clean_chars(raw_ext);
    assert(is_name_char('_'));
    let nm = norm_name_part(s);
    let ce = norm_ext_part(s);
    assert(clean_83(Seq::<char>::empty()) =~= Seq::<char>::empty());
    assert forall|k: int| 0 <= k < nm.len() implies is_name_char(#[trigger] nm[k]) by {
        let cn = take_up_to(clean_83(raw_name), 8);
        if cn.len() != 0 {
            assert(nm[k] == clean_83(raw_name)[k]);
        }
    }
    assert forall|k: int| 0 <= k < ce.len() implies is_name_char(#[trigger] ce[k]) by {
        assert(ce[k] == clean_83(raw_ext)[k]);
    }
    let r = normalize_83(s);
    if ce.len() == 0 {
        assert forall|j: int| 0 <= j < r.len() implies r[j] != '.' by {
            assert(is_name_char(nm[j]));
        }
        lemma_last_dot_none_pub(r);
    } else {
        assert(r == nm + seq!['.'] + ce);
        assert(r[nm.len() as int] == '.');
        assert forall|j: int| nm.len() < j < r.len() implies r[j] != '.' by {
            assert(r[j] == ce[j - nm.len() - 1]);
            assert(is_name_char(ce[j - nm.len() - 1]));
        }
        lemma_last_dot_at_pub(r, nm.len() as int);
    }
}

/// 8.3 normalization is idempotent: a normalized name normalizes to itself.
pub proof fn lemma_normalize_idempotent(s: Seq<char>)
    ensures
        normalize_83(normalize_83(s)) == normalize_83(s),
{
    lemma_normalize_structure(s);
    let nm = norm_name_part(s);
    let ce = norm_ext_part(s);
    let r = normalize_83(s);
    assert forall|k: int| 0 <= k < r.len() implies upper_char(#[trigger] r[k]) == r[k] by {
        if ce.len() == 0 {
            assert(is_name_char(nm[k]));
        } else {
            assert(r == nm + seq!['.'] + ce);
            if k < nm.len() {
                assert(is_name_char(nm[k]));
                assert(r[k] == nm[k]);
            } else if k == nm.len() {
                assert(r[k] == '.');
            } else {
                assert(is_name_char(ce[k - nm.len() - 1]));
                assert(r[k] == ce[k - nm.len() - 1]);
            }
        }
    }
    lemma_upper_id(r);
    if ce.len() == 0 {
        assert forall|j: int| 0 <= j < r.len() implies is_name_char(#[trigger] r[j]) by {
            assert(r[j] == nm[j]);
        }
        assert(forall|j: int| 0 <= j < r.len() ==> r[j] != '.');
        lemma_last_dot_none_pub(r);
        lemma_clean_id(r);
        assert(norm_name_part(r) == r);
        assert(norm_ext_part(r).len() == 0) by {
            assert(norm_ext_part(r) =~= Seq::<char>::empty());
        }
        assert(normalize_83(r) == r);
    } else {
        assert(r == nm + seq!['.'] + ce);
        let d2 = last_dot(upper_seq(r));
        assert(d2 == nm.len() as int);
        assert(upper_seq(r).take(d2) =~= nm);
        assert(upper_seq(r).skip(d2 + 1) =~= ce);
        assert(forall|k: int| 0 <= k < nm.len() ==> is_name_char(#[trigger] nm[k]));
        assert(forall|k: int| 0 <= k < ce.len() ==> is_name_char(#[trigger] ce[k]));
        lemma_clean_id(nm);
        lemma_clean_id(ce);
        assert(norm_name_part(r) == nm);
        assert(norm_ext_part(r) == ce);
        assert(normalize_83(r) == nm + seq!['.'] + ce);
        assert(normalize_83(r) == r);
    }
}

/// Shape of every normalized name: nonempty, uppercase, name part at most 8
/// characters, extension part at most 3, and a name part without valid
/// characters comes out as `_`.
pub proof fn lemma_normalize_shape(s: Seq<char>)
    ensures
        normalize_83(s).len() > 0,
        forall|k: int|
            0 <= k < normalize_83(s).len() ==> upper_char(#[trigger] normalize_83(s)[k])
                == normalize_83(s)[k],
        ({
            let r = normalize_83(s);
            let rd = last_dot(r);
            &&& (rd < 0 ==> r.len() <= 8)
            &&& (rd >= 0 ==> rd <= 8 && r.len() - rd - 1 <= 3)
        }),
        norm_name_part(s) == seq!['_'] || norm_name_part(s) == take_up_to(
            clean_83(
                if last_dot(upper_seq(s)) < 0 {
                    upper_seq(s)
                } else {
                    upper_seq(s).take(last_dot(upper_seq(s)))
                },
            ),
            8,
        ),
        normalize_83(s)[0] == norm_name_part(s)[0],
{
    lemma_normalize_structure(s);
    let nm = norm_name_part(s);
    let ce = norm_ext_part(s);
    let r = normalize_83(s);
    assert forall|k: int| 0 <= k < r.len() implies upper_char(#[trigger] r[k]) == r[k] by {
        if ce.len() == 0 {
            assert(is_name_char(nm[k]));
        } else {
            assert(r == nm + seq!['.'] + ce);
            if k < nm.len() {
                assert(is_name_char(nm[k]));
                assert(r[k] == nm[k]);
            } else if k == nm.len() {
                assert(r[k] == '.');
            } else {
                assert(is_name_char(ce[k - nm.len() - 1]));
                assert(r[k] == ce[k - nm.len() - 1]);
            }
        }
    }
}

/// Drive lookups are case-insensitive: every drive contract looks a name up
/// at `normalize_83(name)`, and since normalization is idempotent, operating
/// on the already-normalized name reaches the same entry.
pub proof fn lemma_case_insensitive_lookup(files: Map<Seq<char>, Seq<u8>>, n: Seq<char>)
    ensures
        files.contains_key(normalize_83(normalize_83(n))) == files.contains_key(normalize_83(n)),
        files.contains_key(normalize_83(n)) ==> files[normalize_83(normalize_83(n))]
            == files[normalize_83(n)],
{
    lemma_normalize_idempotent(n);
}

/// A single CP/M drive (one of the letters A-P): read, write, delete, list
/// and existence over 8.3 names, every name normalized at the boundary.
///
/// `files()` models the drive's stored contents as a map from normalized name
/// to bytes. `virtual_names()` are names the drive synthesizes on read, whose
/// bytes are computed fresh on each call. A `read_only()` drive refuses
/// writes and deletes and never changes.
pub trait DriveFS: Sized {
    spec fn files(&self) -> Map<Seq<char>, Seq<u8>>;

    spec fn virtual_names(&self) -> Set<Seq<char>>;

    spec fn read_only(&self) -> bool;

    spec fn wf(&self) -> bool;

    /// Read a file's content; None when the file does not exist.
    fn read_file(&self, name: &str) -> (r: Option<Vec<u8>>)
        requires
            self.wf(),
        ensures
            ({
                let key = normalize_83(name@);
                if self.virtual_names().contains(key) {
                    r is Some
                } else {
                    match r {
                        Some(d) => self.files().contains_key(key) && d@ == self.files()[key],
                        None => !self.files().contains_key(key),
                    }
                }
            }),
    ;

    /// Store a file; on a read-only drive this fails and changes nothing.
    fn write_file(&mut self, name: &str, data: &[u8]) -> (r: CpmResult<()>)
        requires
            old(self).wf(),
        ensures
            final(self).wf(),
            final(self).read_only() == old(self).read_only(),
            old(self).read_only() ==> r == Err::<(), CpmError>(CpmError::ReadOnly) && final(self).files() == old(self).files() && final(self).virtual_names() == old(
                self,
            ).virtual_names(),
            !old(self).read_only() ==> r == Ok::<(), CpmError>(()) && final(self).files() == old(
                self,
            ).files().insert(normalize_83(name@), data@) && final(self).virtual_names() == old(
                self,
            ).virtual_names().remove(normalize_83(name@)),
    ;

    /// Delete a file; returns whether it existed. On a read-only drive this
    /// refuses and returns false.
    fn delete_file(&mut self, name: &str) -> (r: bool)
        requires
            old(self).wf(),
        ensures
            final(self).wf(),
            final(self).read_only() == old(self).read_only(),
            old(self).read_only() ==> r == false && final(self).files() == old(self).files()
                && final(self).virtual_names() == old(self).virtual_names(),
            !old(self).read_only() ==> ({
                let key = normalize_83(name@);
                &&& r == (old(self).files().contains_key(key) || old(
                    self,
                ).virtual_names().contains(key))
                &&& final(self).files() == old(self).files().remove(key)
                &&& final(self).virtual_names() == old(self).virtual_names().remove(key)
            }),
    ;

    /// All file names on the drive, without duplicates, in no fixed order.
    fn list_files(&self) -> (r: Vec<String>)
        requires
            self.wf(),
        ensures
            r@.map_values(|s: String| s@).to_set() == self.files().dom().union(
                self.virtual_names(),
            ),
            r@.map_values(|s: String| s@).no_duplicates(),
    ;

    /// Whether a file of this name exists.
    fn has_file(&self, name: &str) -> (r: bool)
        requires
            self.wf(),
        ensures
            r == (self.files().contains_key(normalize_83(name@)) || self.virtual_names().contains(
                normalize_83(name@),
            )),
    ;
}

} // verus!
