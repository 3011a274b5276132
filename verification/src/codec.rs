//! The path/key codec: the bidirectional mapping between file system paths
//! and the keys of replica entries.
//!
//! A path is first normalized to an absolute, lexically cleaned form: joined
//! onto `/`, with `.` and `..` segments resolved and redundant separators
//! collapsed. The *file key* of a path is the UTF-8 encoding of its
//! normalized form followed by a single NUL byte; the *prefix key* is the
//! same encoding without the terminator and is used only to bound
//! prefix-range queries. The NUL terminator keeps a file distinct from any
//! directory sharing its name: at the first position past the common prefix
//! a file key holds `0x00` where the key of any entry below the directory
//! holds the separator byte.

use vstd::prelude::*;
use vstd::std_specs::iter::IteratorSpec;
use vstd::utf8::encode_utf8;
use vstd::utf8::decode_utf8;
use vstd::utf8::valid_utf8;

verus! {

broadcast use {
    vstd::seq_lib::group_seq_properties,
    vstd::string::axiom_spec_iter,
    vstd::string::next_postcondition,
};

/// Splits a sequence of characters at every `/`, keeping empty segments.
/// The result always holds at least one segment.
pub open spec fn split_segments(p: Seq<char>) -> Seq<Seq<char>>
    decreases p.len(),
{
    if p.len() == 0 {
        seq![Seq::<char>::empty()]
    } else if p.last() == '/' {
        split_segments(p.drop_last()).push(Seq::<char>::empty())
    } else {
        let rest = split_segments(p.drop_last());
        rest.update(rest.len() - 1, rest.last().push(p.last()))
    }
}

/// One step of lexical cleaning: empty segments and `.` are dropped, `..`
/// removes the innermost remaining segment (or nothing, at the root), and
/// any other segment is kept.
pub open spec fn apply_segment(stack: Seq<Seq<char>>, s: Seq<char>) -> Seq<Seq<char>> {
    if s.len() == 0 || s == seq!['.'] {
        stack
    } else if s == seq!['.', '.'] {
        if stack.len() > 0 {
            stack.drop_last()
        } else {
            stack
        }
    } else {
        stack.push(s)
    }
}

/// The segments remaining after cleaning, folded from the left.
pub open spec fn clean_segments(segs: Seq<Seq<char>>) -> Seq<Seq<char>>
    decreases segs.len(),
{
    if segs.len() == 0 {
        Seq::<Seq<char>>::empty()
    } else {
        apply_segment(clean_segments(segs.drop_last()), segs.last())
    }
}

/// Joins segments back into an absolute path: each segment is preceded by
/// one separator.
pub open spec fn render_segments(segs: Seq<Seq<char>>) -> Seq<char>
    decreases segs.len(),
{
    if segs.len() == 0 {
        Seq::<char>::empty()
    } else {
        render_segments(segs.drop_last()) + seq!['/'] + segs.last()
    }
}

/// The normalized form of a path: absolute, with `.` and `..` resolved,
/// separators collapsed, and no trailing separator. The normalized form of
/// a path with no remaining segments is the root `/`.
pub open spec fn normalize(p: Seq<char>) -> Seq<char> {
    let segs = clean_segments(split_segments(p));
    if segs.len() == 0 {
        seq!['/']
    } else {
        render_segments(segs)
    }
}

/// Every split yields at least one segment.
proof fn lemma_split_nonempty(p: Seq<char>)
    ensures
        split_segments(p).len() >= 1,
    decreases p.len(),
{
    if p.len() > 0 {
        lemma_split_nonempty(p.drop_last());
    }
}

/// The views of a stack of segments.
pub open spec fn seg_views(stack: Seq<Vec<char>>) -> Seq<Seq<char>> {
    stack.map_values(|v: Vec<char>| v@)
}

/// Pushes one completed segment of the scan through the cleaning step.
fn flush_segment(stack: &mut Vec<Vec<char>>, cur: Vec<char>)
    ensures
        seg_views(final(stack)@) == apply_segment(seg_views(old(stack)@), cur@),
{
    if cur.len() == 0 || (cur.len() == 1 && cur[0] == '.') {
        proof {
            if cur@.len() == 1 && cur@[0] == '.' {
                assert(cur@ =~= seq!['.']);
            }
        }
    } else if cur.len() == 2 && cur[0] == '.' && cur[1] == '.' {
        proof {
            assert(cur@ =~= seq!['.', '.']);
            assert(cur@ != seq!['.']);
        }
        if stack.len() > 0 {
            let ghost before = stack@;
            stack.pop();
            proof {
                assert(seg_views(stack@) =~= seg_views(before).drop_last());
            }
        }
    } else {
        proof {
            assert(cur@ != seq!['.']) by {
                if cur@ == seq!['.'] {
                    assert(cur@.len() == 1 && cur@[0] == '.');
                }
            }
            assert(cur@ != seq!['.', '.']) by {
                if cur@ == seq!['.', '.'] {
                    assert(cur@.len() == 2 && cur@[0] == '.' && cur@[1] == '.');
                }
            }
        }
        let ghost before = stack@;
        let ghost pushed = cur@;
        stack.push(cur);
        proof {
            assert(seg_views(stack@) =~= seg_views(before).push(pushed));
        }
    }
}

/// Collects the characters of a string slice.
fn str_chars(s: &str) -> (r: Vec<char>)
    ensures
        r@ == s@,
{
    let mut it = s.chars();
    let mut out: Vec<char> = Vec::new();
    loop
        invariant
            out@ + it.remaining() == s@,
        ensures
            out@ == s@,
        decreases s@.len() - out@.len(),
    {
        let ghost prev_out = out@;
        let ghost prev_remaining = it.remaining();
        match it.next() {
            Some(c) => {
                out.push(c);
                proof {
                    assert(out@ + it.remaining() =~= prev_out + prev_remaining);
                }
            },
            None => {
                proof {
                    assert(out@ =~= out@ + it.remaining());
                }
                break ;
            },
        }
    }
    out
}

/// Relies on `String::push`: appends the character to the end of the
/// string.
#[verifier::external_body]
fn push_char(s: &mut String, c: char)
    ensures
        final(s)@ == old(s)@.push(c),
{
    s.push(c);
}

/// Builds a string from a sequence of characters.
fn string_from_chars(chars: &Vec<char>) -> (r: String)
    ensures
        r@ == chars@,
{
    let mut out = String::new();
    let mut i: usize = 0;
    while i < chars.len()
        invariant
            i <= chars@.len(),
            out@ == chars@.take(i as int),
        decreases chars@.len() - i,
    {
        push_char(&mut out, chars[i]);
        proof {
            assert(chars@.take(i + 1) =~= chars@.take(i as int).push(chars@[i as int]));
        }
        i += 1;
    }
    proof {
        assert(chars@.take(chars@.len() as int) =~= chars@);
    }
    out
}

/// Normalizes a path: joins it onto `/`, resolves `.` and `..`, collapses
/// redundant separators and drops any trailing separator. Total: every
/// string, including the empty one, has a normalized form.
pub fn normalise_path(path: &str) -> (r: String)
    ensures
        r@ == normalize(path@),
{
    let chars = str_chars(path);
    let mut stack: Vec<Vec<char>> = Vec::new();
    let mut cur: Vec<char> = Vec::new();
    let mut i: usize = 0;
    while i < chars.len()
        invariant
            i <= chars@.len(),
            chars@ == path@,
            split_segments(path@.take(i as int)).len() >= 1,
            seg_views(stack@) == clean_segments(
                split_segments(path@.take(i as int)).drop_last(),
            ),
            cur@ == split_segments(path@.take(i as int)).last(),
        decreases chars@.len() - i,
    {
        let ghost taken = path@.take(i as int);
        let ghost taken_next = path@.take(i + 1);
        proof {
            assert(taken_next.drop_last() =~= taken);
            assert(taken_next.last() == path@[i as int]);
            lemma_split_nonempty(taken_next);
        }
        let c = chars[i];
        if c == '/' {
            proof {
                assert(split_segments(taken_next) == split_segments(taken).push(
                    Seq::<char>::empty(),
                ));
                assert(split_segments(taken_next).drop_last() =~= split_segments(taken));
            }
            flush_segment(&mut stack, cur);
            cur = Vec::new();
            proof {
                assert(cur@ =~= Seq::<char>::empty());
            }
        } else {
            proof {
                let rest = split_segments(taken);
                assert(split_segments(taken_next) == rest.update(
                    rest.len() - 1,
                    rest.last().push(path@[i as int]),
                ));
                assert(split_segments(taken_next).drop_last() =~= rest.drop_last());
                assert(split_segments(taken_next).last() == rest.last().push(path@[i as int]));
            }
            cur.push(c);
        }
        i += 1;
    }
    proof {
        assert(path@.take(path@.len() as int) =~= path@);
        lemma_split_nonempty(path@);
    }
    flush_segment(&mut stack, cur);
    proof {
        let segs = split_segments(path@);
        assert(seg_views(stack@) == apply_segment(
            clean_segments(segs.drop_last()),
            segs.last(),
        ));
        assert(seg_views(stack@) == clean_segments(segs));
    }
    let mut out_chars: Vec<char> = Vec::new();
    if stack.len() == 0 {
        out_chars.push('/');
        proof {
            assert(out_chars@ =~= seq!['/']);
        }
    } else {
        let mut k: usize = 0;
        while k < stack.len()
            invariant
                k <= stack@.len(),
                seg_views(stack@) == clean_segments(split_segments(path@)),
                out_chars@ == render_segments(seg_views(stack@).take(k as int)),
            decreases stack@.len() - k,
        {
            out_chars.push('/');
            let seg = &stack[k];
            let mut m: usize = 0;
            while m < seg.len()
                invariant
                    m <= seg@.len(),
                    k < stack@.len(),
                    seg@ == stack@[k as int]@,
                    seg_views(stack@) == clean_segments(split_segments(path@)),
                    out_chars@ == render_segments(seg_views(stack@).take(k as int)) + seq!['/']
                        + seg@.take(m as int),
                decreases seg@.len() - m,
            {
                out_chars.push(seg[m]);
                proof {
                    assert(seg@.take(m + 1) =~= seg@.take(m as int).push(seg@[m as int]));
                    assert(render_segments(seg_views(stack@).take(k as int)) + seq!['/']
                        + seg@.take(m + 1) =~= (render_segments(
                        seg_views(stack@).take(k as int),
                    ) + seq!['/'] + seg@.take(m as int)).push(seg@[m as int]));
                }
                m += 1;
            }
            proof {
                let views = seg_views(stack@);
                assert(seg@.take(seg@.len() as int) =~= seg@);
                assert(views.take(k + 1).drop_last() =~= views.take(k as int));
                assert(views.take(k + 1).last() == views[k as int]);
                assert(render_segments(views.take(k + 1)) == render_segments(
                    views.take(k as int),
                ) + seq!['/'] + views[k as int]);
            }
            k += 1;
        }
        proof {
            let views = seg_views(stack@);
            assert(views.take(views.len() as int) =~= views);
        }
    }
    string_from_chars(&out_chars)
}

/// UTF-8 encoding distributes over concatenation.
pub proof fn lemma_encode_concat(s1: Seq<char>, s2: Seq<char>)
    ensures
        encode_utf8(s1 + s2) == encode_utf8(s1) + encode_utf8(s2),
    decreases s1.len(),
{
    if s1.len() == 0 {
        assert(s1 + s2 =~= s2);
        assert(encode_utf8(s1) + encode_utf8(s2) =~= encode_utf8(s2));
    } else {
        assert((s1 + s2).drop_first() =~= s1.drop_first() + s2);
        lemma_encode_concat(s1.drop_first(), s2);
        assert(encode_utf8(s1 + s2) =~= encode_utf8(s1) + encode_utf8(s2));
    }
}

/// The separator character is encoded as the single byte 47.
pub proof fn lemma_encode_slash()
    ensures
        encode_utf8(seq!['/']) == seq![47u8],
{
    let u = '/' as u32;
    assert(u == 47);
    assert((47u32 & 0x7F) as u8 == 47u8) by (bit_vector);
    assert(vstd::utf8::has_width_1_encoding(u));
    assert(vstd::utf8::leading_byte_width_1(u) == 47u8);
    assert(vstd::utf8::encode_scalar(u) =~= seq![47u8]);
    let s = seq!['/'];
    assert(s[0] == '/');
    assert(s.drop_first() =~= Seq::<char>::empty());
    assert(encode_utf8(s.drop_first()) == Seq::<u8>::empty());
    assert(encode_utf8(s) == vstd::utf8::encode_scalar(s[0] as u32) + encode_utf8(s.drop_first()));
    assert(encode_utf8(s) =~= seq![47u8]);
}

/// Bytes with the high bit forced on are never zero.
proof fn lemma_high_or_nonzero(c: u8, w: u8)
    by (bit_vector)
    requires
        c & 0x80 == 0x80,
    ensures
        (c | w) != 0,
{
}

/// A one-byte encoding of a nonzero scalar is nonzero.
proof fn lemma_low_byte_nonzero(u: u32)
    by (bit_vector)
    requires
        u < 0x80,
        u != 0,
    ensures
        ((u & 0x7F) as u8) != 0,
{
}

/// The encoding of any character other than NUL holds no zero byte.
proof fn lemma_encode_scalar_zero_free(c: char)
    requires
        c != '\0',
    ensures
        !vstd::utf8::encode_scalar(c as u32).contains(0u8),
{
    broadcast use vstd::utf8::char_is_scalar;

    let u = c as u32;
    assert(u != 0) by {
        if u == 0 {
            vstd::utf8::char_u32_cast(c, u);
            assert('\0' as u32 == 0);
            vstd::utf8::char_u32_cast('\0', 0);
        }
    }
    assert(0x80u8 & 0x80 == 0x80) by (bit_vector);
    assert(0xC0u8 & 0x80 == 0x80) by (bit_vector);
    assert(0xE0u8 & 0x80 == 0x80) by (bit_vector);
    assert(0xF0u8 & 0x80 == 0x80) by (bit_vector);
    let enc = vstd::utf8::encode_scalar(u);
    assert forall|i: int| 0 <= i < enc.len() implies enc[i] != 0u8 by {
        if vstd::utf8::has_width_1_encoding(u) {
            lemma_low_byte_nonzero(u);
        } else {
            lemma_high_or_nonzero(0x80u8, (u & 0x3F) as u8);
            lemma_high_or_nonzero(0x80u8, ((u >> 6) & 0x3F) as u8);
            lemma_high_or_nonzero(0x80u8, ((u >> 12) & 0x3F) as u8);
            lemma_high_or_nonzero(0xC0u8, ((u >> 6) & 0x1F) as u8);
            lemma_high_or_nonzero(0xE0u8, ((u >> 12) & 0x0F) as u8);
            lemma_high_or_nonzero(0xF0u8, ((u >> 18) & 0x7) as u8);
        }
    }
    if enc.contains(0u8) {
        let i = choose|i: int| 0 <= i < enc.len() && enc[i] == 0u8;
    }
}

/// The encoding of a sequence of characters without NUL holds no zero byte.
pub proof fn lemma_encode_zero_free(s: Seq<char>)
    requires
        !s.contains('\0'),
    ensures
        !encode_utf8(s).contains(0u8),
    decreases s.len(),
{
    if s.len() > 0 {
        assert(s[0] != '\0') by {
            if s[0] == '\0' {
                assert(s.contains('\0'));
            }
        }
        lemma_encode_scalar_zero_free(s[0]);
        assert(!s.drop_first().contains('\0')) by {
            if s.drop_first().contains('\0') {
                let i = choose|i: int|
                    0 <= i < s.drop_first().len() && s.drop_first()[i] == '\0';
                assert(s[i + 1] == '\0');
            }
        }
        lemma_encode_zero_free(s.drop_first());
    }
}

/// Every character of a segment produced by splitting comes from the
/// original path.
proof fn lemma_split_chars(p: Seq<char>, k: int, c: char)
    requires
        0 <= k < split_segments(p).len(),
        split_segments(p)[k].contains(c),
    ensures
        p.contains(c),
    decreases p.len(),
{
    if p.len() == 0 {
    } else if p.last() == '/' {
        if k < split_segments(p.drop_last()).len() {
            lemma_split_chars(p.drop_last(), k, c);
            let i = choose|i: int| 0 <= i < p.drop_last().len() && p.drop_last()[i] == c;
            assert(p[i] == c);
        }
    } else {
        let rest = split_segments(p.drop_last());
        lemma_split_nonempty(p.drop_last());
        if k < rest.len() - 1 {
            lemma_split_chars(p.drop_last(), k, c);
            let i = choose|i: int| 0 <= i < p.drop_last().len() && p.drop_last()[i] == c;
            assert(p[i] == c);
        } else {
            if c == p.last() {
                assert(p.contains(c));
            } else {
                assert(rest.last().contains(c)) by {
                    let j = choose|j: int|
                        0 <= j < split_segments(p)[k].len() && split_segments(p)[k][j] == c;
                    assert(split_segments(p)[k] == rest.last().push(p.last()));
                    assert(rest.last()[j] == c);
                }
                lemma_split_chars(p.drop_last(), rest.len() - 1, c);
                let i = choose|i: int| 0 <= i < p.drop_last().len() && p.drop_last()[i] == c;
                assert(p[i] == c);
            }
        }
    }
}

/// Every segment kept by cleaning is one of the given segments.
proof fn lemma_clean_members(segs: Seq<Seq<char>>, k: int)
    requires
        0 <= k < clean_segments(segs).len(),
    ensures
        segs.contains(clean_segments(segs)[k]),
    decreases segs.len(),
{
    if segs.len() > 0 {
        let prev = clean_segments(segs.drop_last());
        let out = clean_segments(segs);
        let s = segs.last();
        assert forall|j: int| 0 <= j < prev.len() implies segs.contains(prev[j]) by {
            lemma_clean_members(segs.drop_last(), j);
            let i = choose|i: int|
                0 <= i < segs.drop_last().len() && segs.drop_last()[i] == prev[j];
            assert(segs[i] == prev[j]);
        }
        if s.len() == 0 || s == seq!['.'] {
        } else if s == seq!['.', '.'] {
            if prev.len() > 0 {
                assert(out[k] == prev[k]);
            }
        } else {
            if k < prev.len() {
                assert(out[k] == prev[k]);
            } else {
                assert(out[k] == s);
                assert(segs[segs.len() - 1] == s);
            }
        }
    }
}

/// Every character of a rendered path is a separator or a character of one
/// of the segments.
proof fn lemma_render_chars(segs: Seq<Seq<char>>, c: char)
    requires
        render_segments(segs).contains(c),
        c != '/',
    ensures
        exists|k: int| 0 <= k < segs.len() && #[trigger] segs[k].contains(c),
    decreases segs.len(),
{
    if segs.len() == 0 {
    } else {
        let whole = render_segments(segs);
        let head = render_segments(segs.drop_last());
        let i = choose|i: int| 0 <= i < whole.len() && whole[i] == c;
        if i < head.len() {
            assert(head.contains(c));
            lemma_render_chars(segs.drop_last(), c);
            let k = choose|k: int|
                0 <= k < segs.drop_last().len() && #[trigger] segs.drop_last()[k].contains(c);
            assert(segs[k].contains(c));
        } else if i == head.len() {
            assert(whole[i] == '/');
        } else {
            assert(segs.last()[i - head.len() - 1] == c);
            assert(segs[segs.len() - 1].contains(c));
        }
    }
}

/// A path without NUL characters normalizes to a path without NUL
/// characters.
pub proof fn lemma_normalize_no_nul(p: Seq<char>)
    requires
        !p.contains('\0'),
    ensures
        !normalize(p).contains('\0'),
{
    let segs = clean_segments(split_segments(p));
    if segs.len() == 0 {
        if normalize(p).contains('\0') {
            let i = choose|i: int| 0 <= i < normalize(p).len() && normalize(p)[i] == '\0';
            assert(normalize(p)[0] == '/');
        }
    } else {
        if normalize(p).contains('\0') {
            lemma_render_chars(segs, '\0');
            let k = choose|k: int| 0 <= k < segs.len() && #[trigger] segs[k].contains('\0');
            lemma_clean_members(split_segments(p), k);
            let j = choose|j: int|
                0 <= j < split_segments(p).len() && #[trigger] split_segments(p)[j] == segs[k];
            lemma_split_chars(p, j, '\0');
        }
    }
}

/// Law: decoding the file key built from a path yields exactly the
/// normalized path. Holds for every path free of NUL characters (a path
/// holding NUL cannot be told apart from the key terminator and its key
/// fails to decode).
pub proof fn lemma_file_key_round_trip(p: Seq<char>)
    requires
        !p.contains('\0'),
    ensures
        key_is_valid(file_key(p)),
        decode_utf8(file_key(p).drop_last()) == normalize(p),
{
    broadcast use vstd::utf8::encode_utf8_valid_utf8;
    broadcast use vstd::utf8::encode_utf8_decode_utf8;

    lemma_normalize_no_nul(p);
    lemma_encode_zero_free(normalize(p));
    assert(file_key(p).drop_last() =~= prefix_key(p));
    assert(file_key(p).last() == 0u8);
    assert(decode_utf8(encode_utf8(normalize(p))) == normalize(p));
}

/// Law: the file key of a path extends its prefix key by exactly the NUL
/// terminator, so the key right at a prefix bound is told apart from the
/// keys below it by its final byte.
pub proof fn lemma_file_key_extends_prefix_key(p: Seq<char>)
    ensures
        file_key(p) == prefix_key(p).push(0u8),
        is_byte_prefix(prefix_key(p), file_key(p)),
        file_key(p)[prefix_key(p).len() as int] == 0u8,
{
    assert(file_key(p).take(prefix_key(p).len() as int) =~= prefix_key(p));
}

/// Law: the NUL terminator keeps a file and a same-named directory apart
/// under prefix scans. For any path `q` lying strictly below the normalized
/// path of `p`, the directory scan bound of `p` reaches the key of `q` but
/// not the file key of `p`, and the file key of `p` is not a byte-prefix of
/// the key of `q`.
#[verifier::rlimit(100)]
pub proof fn lemma_nul_boundary_disambiguates(p: Seq<char>, q: Seq<char>)
    requires
        normalize(p) != seq!['/'],
        normalize(q).len() > normalize(p).len(),
        normalize(q).take(normalize(p).len() as int) == normalize(p),
        normalize(q)[normalize(p).len() as int] == '/',
    ensures
        is_byte_prefix(dir_prefix_key(p), file_key(q)),
        !is_byte_prefix(dir_prefix_key(p), file_key(p)),
        !is_byte_prefix(file_key(p), file_key(q)),
{
    lemma_encode_slash();
    let np = normalize(p);
    let nq = normalize(q);
    let tail = nq.skip(np.len() as int + 1);
    assert(nq =~= np + seq!['/'] + tail);
    lemma_encode_concat(np + seq!['/'], tail);
    lemma_encode_concat(np, seq!['/']);
    let ep = encode_utf8(np);
    assert(encode_utf8(nq) =~= ep + seq![47u8] + encode_utf8(tail));
    assert(dir_prefix(p) =~= np + seq!['/']);
    assert(dir_prefix_key(p) =~= ep + seq![47u8]);
    assert(file_key(q)[ep.len() as int] == 47u8);
    assert(file_key(p)[ep.len() as int] == 0u8) by {
        lemma_file_key_extends_prefix_key(p);
    }
    assert(is_byte_prefix(dir_prefix_key(p), file_key(q))) by {
        assert(file_key(q).take(ep.len() as int + 1) =~= ep + seq![47u8]);
    }
    assert(!is_byte_prefix(dir_prefix_key(p), file_key(p))) by {
        if is_byte_prefix(dir_prefix_key(p), file_key(p)) {
            assert(file_key(p).take(ep.len() as int + 1)[ep.len() as int] == 47u8);
        }
    }
    assert(!is_byte_prefix(file_key(p), file_key(q))) by {
        if is_byte_prefix(file_key(p), file_key(q)) {
            assert(file_key(q).take(file_key(p).len() as int)[ep.len() as int] == 0u8);
        }
    }
}

/// A rendered non-empty segment list starts with the separator.
proof fn lemma_render_starts_with_separator(segs: Seq<Seq<char>>)
    requires
        segs.len() > 0,
    ensures
        render_segments(segs).len() > 0,
        render_segments(segs)[0] == '/',
    decreases segs.len(),
{
    if segs.len() > 1 {
        lemma_render_starts_with_separator(segs.drop_last());
        assert(render_segments(segs)[0] == (render_segments(segs.drop_last()) + seq!['/']
            + segs.last())[0]);
    } else {
        assert(render_segments(segs.drop_last()).len() == 0);
        assert(render_segments(segs)[0] == (render_segments(segs.drop_last()) + seq!['/']
            + segs.last())[0]);
    }
}

/// Every normalized path is absolute: non-empty and starting with the
/// separator.
pub proof fn lemma_normalize_absolute(p: Seq<char>)
    ensures
        normalize(p).len() > 0,
        normalize(p)[0] == '/',
{
    let segs = clean_segments(split_segments(p));
    if segs.len() > 0 {
        lemma_render_starts_with_separator(segs);
    }
}

/// Every file key starts with the separator byte and ends with the NUL
/// terminator.
pub proof fn lemma_file_key_shape(p: Seq<char>)
    ensures
        file_key(p).len() >= 2,
        file_key(p)[0] == 47u8,
        file_key(p).last() == 0u8,
{
    lemma_normalize_absolute(p);
    let n = normalize(p);
    assert(n =~= seq![n[0]] + n.skip(1));
    assert(seq![n[0]] =~= seq!['/']);
    lemma_encode_concat(seq!['/'], n.skip(1));
    lemma_encode_slash();
    assert(encode_utf8(n)[0] == 47u8);
}

/// The final segment of a path: the characters after its last separator,
/// or the whole path when it has none. A path ending in a separator has an
/// empty final segment.
pub open spec fn last_segment(p: Seq<char>) -> Seq<char>
    decreases p.len(),
{
    if p.len() == 0 {
        Seq::<char>::empty()
    } else if p.last() == '/' {
        Seq::<char>::empty()
    } else {
        last_segment(p.drop_last()).push(p.last())
    }
}

/// Joins a file's name under a directory: the directory's path, one
/// separator, and the final segment of the file's path.
pub fn join_under(dir: &str, file_path: &str) -> (r: String)
    ensures
        r@ == dir@ + seq!['/'] + last_segment(file_path@),
{
    let fchars = str_chars(file_path);
    let mut start: usize = 0;
    let mut i: usize = 0;
    while i < fchars.len()
        invariant
            i <= fchars@.len(),
            start <= i,
            fchars@ == file_path@,
            last_segment(file_path@.take(i as int)) =~= file_path@.subrange(
                start as int,
                i as int,
            ),
        decreases fchars@.len() - i,
    {
        let ghost taken_next = file_path@.take(i + 1);
        proof {
            assert(taken_next.drop_last() =~= file_path@.take(i as int));
            assert(taken_next.last() == file_path@[i as int]);
        }
        if fchars[i] == '/' {
            start = i + 1;
        } else {
            proof {
                assert(last_segment(taken_next) =~= last_segment(
                    file_path@.take(i as int),
                ).push(file_path@[i as int]));
                assert(file_path@.subrange(start as int, i as int).push(file_path@[i as int])
                    =~= file_path@.subrange(start as int, i + 1));
            }
        }
        i += 1;
    }
    proof {
        assert(file_path@.take(file_path@.len() as int) =~= file_path@);
    }
    let dchars = str_chars(dir);
    let mut out = dchars;
    out.push('/');
    let mut j: usize = start;
    while j < fchars.len()
        invariant
            start <= j <= fchars@.len(),
            fchars@ == file_path@,
            out@ == dir@ + seq!['/'] + file_path@.subrange(start as int, j as int),
        decreases fchars@.len() - j,
    {
        out.push(fchars[j]);
        proof {
            assert((dir@ + seq!['/'] + file_path@.subrange(start as int, j as int)).push(
                file_path@[j as int],
            ) =~= dir@ + seq!['/'] + file_path@.subrange(start as int, j + 1));
        }
        j += 1;
    }
    proof {
        assert(out@ =~= dir@ + seq!['/'] + last_segment(file_path@));
    }
    string_from_chars(&out)
}

/// The key of the file at a path: the UTF-8 encoding of the normalized
/// path, terminated by one NUL byte.
pub open spec fn file_key(p: Seq<char>) -> Seq<u8> {
    prefix_key(p).push(0u8)
}

/// The prefix key of a path: the UTF-8 encoding of the normalized path,
/// with no terminator. Used only to bound prefix-range queries.
pub open spec fn prefix_key(p: Seq<char>) -> Seq<u8> {
    encode_utf8(normalize(p))
}

/// The directory form of a normalized path: the path with a trailing
/// separator (the root already ends in its separator). A scan bounded by
/// its encoding sees exactly the entries lying below the directory.
pub open spec fn dir_prefix(p: Seq<char>) -> Seq<char> {
    if normalize(p) == seq!['/'] {
        normalize(p)
    } else {
        normalize(p).push('/')
    }
}

/// The key prefix bounding a scan over the entries below a directory.
pub open spec fn dir_prefix_key(p: Seq<char>) -> Seq<u8> {
    encode_utf8(dir_prefix(p))
}

/// The root is its own normalized form, and its prefix key is the single
/// separator byte.
pub proof fn lemma_root_prefix_key()
    ensures
        normalize(seq!['/']) == seq!['/'],
        prefix_key(seq!['/']) == seq![47u8],
{
    let root = seq!['/'];
    assert(root.drop_last() =~= Seq::<char>::empty());
    assert(split_segments(Seq::<char>::empty()) == seq![Seq::<char>::empty()]);
    assert(split_segments(root) == seq![Seq::<char>::empty()].push(Seq::<char>::empty()));
    let segs = split_segments(root);
    assert(segs.drop_last() =~= seq![Seq::<char>::empty()]);
    assert(seq![Seq::<char>::empty()].drop_last() =~= Seq::<Seq<char>>::empty());
    assert(clean_segments(seq![Seq::<char>::empty()]) == apply_segment(
        clean_segments(Seq::<Seq<char>>::empty()),
        Seq::<char>::empty(),
    ));
    assert(clean_segments(segs).len() == 0);
    assert(normalize(root) == seq!['/']);
    lemma_encode_slash();
}

/// Every directory scan prefix is non-empty and ends with the separator
/// byte.
pub proof fn lemma_dir_prefix_key_shape(p: Seq<char>)
    ensures
        dir_prefix_key(p).len() > 0,
        dir_prefix_key(p).last() == 47u8,
{
    lemma_encode_slash();
    if normalize(p) == seq!['/'] {
        assert(dir_prefix_key(p) =~= seq![47u8]);
    } else {
        let n = normalize(p);
        assert(n.push('/') =~= n + seq!['/']);
        lemma_encode_concat(n, seq!['/']);
        assert(dir_prefix_key(p) =~= encode_utf8(n) + seq![47u8]);
    }
}

/// Whether `a` is a byte-prefix of `b`.
pub open spec fn is_byte_prefix(a: Seq<u8>, b: Seq<u8>) -> bool {
    a.len() <= b.len() && b.take(a.len() as int) == a
}

/// Converts a path to the key of its file entry in a replica: a
/// NUL-terminated byte string.
pub fn path_to_entry_key(path: &str) -> (r: Vec<u8>)
    ensures
        r@ == file_key(path@),
{
    let mut key = path_to_entry_prefix(path);
    key.push(0u8);
    key
}

/// Converts a path to a key prefix for the entries of a replica: the
/// encoded normalized path, without a NUL terminator.
pub fn path_to_entry_prefix(path: &str) -> (r: Vec<u8>)
    ensures
        r@ == prefix_key(path@),
{
    let normalized = normalise_path(path);
    vstd::slice::slice_to_vec(normalized.as_str().as_bytes())
}

/// Converts a path to the key prefix bounding the entries below it as a
/// directory: the encoded normalized path with a trailing separator.
pub fn path_to_dir_prefix(path: &str) -> (r: Vec<u8>)
    ensures
        r@ == dir_prefix_key(path@),
{
    let mut bytes = path_to_entry_prefix(path);
    if !(bytes.len() == 1 && bytes[0] == 47u8) {
        proof {
            lemma_encode_slash();
            if normalize(path@) == seq!['/'] {
                assert(bytes@ =~= seq![47u8]);
            }
            broadcast use vstd::utf8::encode_utf8_valid_utf8;

            lemma_encode_concat(normalize(path@), seq!['/']);
            assert(dir_prefix(path@) =~= normalize(path@) + seq!['/']);
        }
        bytes.push(47u8);
        proof {
            assert(bytes@ =~= encode_utf8(normalize(path@)) + seq![47u8]);
        }
    } else {
        proof {
            lemma_encode_slash();
            broadcast use vstd::utf8::encode_utf8_decode_utf8;

            assert(bytes@ =~= encode_utf8(seq!['/']));
            assert(decode_utf8(encode_utf8(normalize(path@))) == normalize(path@));
            assert(decode_utf8(encode_utf8(seq!['/'])) == seq!['/']);
            assert(normalize(path@) == seq!['/']);
        }
    }
    bytes
}

/// Failure of `entry_key_to_path`: the key is not exactly one
/// NUL-terminated, UTF-8 encoded path.
#[derive(Clone, Copy, Debug, PartialEq, Eq, Structural)]
pub enum DecodeError {
    /// The key is empty or does not end in a NUL byte.
    MissingTerminator,
    /// A NUL byte stands before the final position.
    InteriorNul,
    /// The bytes before the terminator are not valid UTF-8.
    InvalidUtf8,
}

/// Whether a key is exactly one NUL-terminated, UTF-8 encoded path.
pub open spec fn key_is_valid(key: Seq<u8>) -> bool {
    &&& key.len() > 0
    &&& key.last() == 0u8
    &&& !key.drop_last().contains(0u8)
    &&& valid_utf8(key.drop_last())
}

/// Relies on `String::from_utf8`: succeeds exactly on valid UTF-8 input,
/// returning the string those bytes encode.
#[verifier::external_body]
fn string_from_utf8(bytes: Vec<u8>) -> (r: Option<String>)
    ensures
        r is Some <==> valid_utf8(bytes@),
        r is Some ==> encode_utf8((r->0)@) == bytes@,
{
    String::from_utf8(bytes).ok()
}

/// Converts the key of a replica entry back into the path it encodes: the
/// exact inverse of `path_to_entry_key`. Fails unless the key is exactly
/// one NUL-terminated, UTF-8 encoded path.
pub fn entry_key_to_path(key: &[u8]) -> (r: Result<String, DecodeError>)
    ensures
        r is Ok <==> key_is_valid(key@),
        r is Ok ==> (r->Ok_0)@ == decode_utf8(key@.drop_last()),
        r is Err ==> (match r->Err_0 {
            DecodeError::MissingTerminator => key@.len() == 0 || key@.last() != 0u8,
            DecodeError::InteriorNul => key@.len() > 0 && key@.last() == 0u8
                && key@.drop_last().contains(0u8),
            DecodeError::InvalidUtf8 => key@.len() > 0 && key@.last() == 0u8
                && !key@.drop_last().contains(0u8) && !valid_utf8(key@.drop_last()),
        }),
{
    let n = key.len();
    if n == 0 || key[n - 1] != 0u8 {
        return Err(DecodeError::MissingTerminator);
    }
    let mut payload: Vec<u8> = Vec::new();
    let mut i: usize = 0;
    while i < n - 1
        invariant
            i <= n - 1,
            n == key@.len(),
            n > 0,
            key@[n - 1] == 0u8,
            payload@ == key@.take(i as int),
            !key@.take(i as int).contains(0u8),
        decreases n - 1 - i,
    {
        if key[i] == 0u8 {
            proof {
                assert(key@.drop_last()[i as int] == 0u8);
            }
            return Err(DecodeError::InteriorNul);
        }
        payload.push(key[i]);
        proof {
            assert(key@.take(i + 1) =~= key@.take(i as int).push(key@[i as int]));
        }
        i += 1;
    }
    proof {
        assert(payload@ =~= key@.drop_last());
    }
    match string_from_utf8(payload) {
        Some(path) => {
            proof {
                broadcast use vstd::utf8::encode_utf8_decode_utf8;

                assert(decode_utf8(encode_utf8(path@)) == path@);
            }
            Ok(path)
        },
        None => Err(DecodeError::InvalidUtf8),
    }
}

} // verus!
