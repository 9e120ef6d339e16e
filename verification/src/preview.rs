//! Preview generation for the selected entry: classification of file bytes
//! as binary, undecodable or text, line splitting with truncation, image
//! extension detection, the size cap, and directory summaries.

use vstd::prelude::*;
use vstd::seq_lib::*;
use vstd::string::StrSliceExecFns;
use vstd::utf8::{
    is_char_boundary,
    is_continuation_byte,
    is_leading_byte_width_1,
    decode_utf8,
    length_of_first_scalar,
    pop_first_scalar,
    valid_first_scalar,
    valid_utf8,
    valid_utf8_concat,
    valid_utf8_split,
};
use crate::entry::{Entry, EntryKind, keys_of, hidden, sort_keys};
use crate::entry::sort_entries;

verus! {

/// Files larger than this many bytes are not read for preview.
pub const PREVIEW_MAX_BYTES: u64 = 1048576;

/// How many lines of a text file the preview shows at most.
pub const PREVIEW_MAX_LINES: usize = 50;

/// How many children a directory summary lists at most.
pub const SUMMARY_MAX_ITEMS: usize = 30;

/// The bounded, structured preview of one entry.
#[derive(Debug)]
pub enum PreviewResult {
    /// The parent sentinel is selected.
    ParentHint,
    /// Summary of a directory's visible children.
    DirectorySummary {
        subdir_count: usize,
        file_count: usize,
        total_bytes: u64,
        listed_items: Vec<String>,
        truncated_count: usize,
    },
    /// An excerpt of a text file.
    TextPreview {
        file_name: String,
        byte_size: u64,
        total_line_count: usize,
        shown_lines: Vec<String>,
        truncated: bool,
    },
    /// The file holds control bytes and is not shown.
    BinaryNotice { byte_size: u64 },
    /// The file exceeds `PREVIEW_MAX_BYTES`.
    TooLarge { byte_size: u64 },
    /// The file has an image extension; no decoding is attempted.
    ImagePlaceholder { extension: String },
    /// The bytes do not decode as text.
    InvalidEncoding { byte_size: u64 },
    /// A filesystem operation failed while generating the preview.
    AccessError { message: String },
}

/// One child of a previewed directory as the filesystem reports it:
/// undecorated name, whether it is a directory, and its byte size where
/// metadata was available.
#[derive(Debug)]
pub struct ChildMeta {
    pub name: String,
    pub is_dir: bool,
    pub size: Option<u64>,
}

/// What the caller observed about the selected entry's path. All filesystem
/// access happens outside this crate; this value carries the outcome in.
#[derive(Debug)]
pub enum PathProbe {
    /// The path is neither a readable directory nor a readable file.
    Missing,
    /// The path is a directory; `listing` is the outcome of reading it.
    Dir { listing: Result<Vec<ChildMeta>, String> },
    /// The path is a file; `size` is its metadata size where available, and
    /// `content` is the outcome of reading it where a read was attempted.
    File { size: Option<u64>, content: Option<Result<Vec<u8>, String>> },
}

// ---------------------------------------------------------------------------
// binary detection

/// A byte that marks a file as binary: a control byte other than tab,
/// newline and carriage return (this includes the null byte).
pub open spec fn bad_byte(b: u8) -> bool {
    b < 32 && b != 9 && b != 10 && b != 13
}

/// A file looks binary when any of its first 1024 bytes is a control byte.
pub open spec fn is_binary(bs: Seq<u8>) -> bool {
    exists|k: int| 0 <= k < bs.len() && k < 1024 && bad_byte(bs[k])
}

#[verifier::loop_isolation(false)]
fn looks_binary(bytes: &Vec<u8>) -> (r: bool)
    ensures
        r == is_binary(bytes@),
{
    let limit: usize = if bytes.len() < 1024 {
        bytes.len()
    } else {
        1024
    };
    let mut i: usize = 0;
    while i < limit
        invariant
            i <= limit,
            forall|k: int| 0 <= k < i ==> !bad_byte(bytes@[k]),
        decreases limit - i,
    {
        let b = bytes[i];
        if b < 32 && b != 9 && b != 10 && b != 13 {
            return true;
        }
        i = i + 1;
    }
    false
}

// ---------------------------------------------------------------------------
// line splitting

/// The lines of a byte sequence: split at newline bytes, with a carriage
/// return directly before a newline stripped, and no empty final line after
/// a trailing newline.
pub open spec fn byte_lines(s: Seq<u8>) -> Seq<Seq<u8>>
    decreases s.len(),
{
    if s.len() == 0 {
        Seq::empty()
    } else if s[0] == 10 {
        seq![Seq::<u8>::empty()] + byte_lines(s.skip(1))
    } else if s[0] == 13 && s.len() >= 2 && s[1] == 10 {
        seq![Seq::<u8>::empty()] + byte_lines(s.skip(2))
    } else {
        let rest = byte_lines(s.skip(1));
        if rest.len() == 0 {
            seq![s]
        } else {
            seq![seq![s[0]] + rest[0]] + rest.drop_first()
        }
    }
}

/// The lines still owed when a partial line `cur` has been read and `rest`
/// are the lines of the remaining input.
pub open spec fn lines_acc(cur: Seq<u8>, rest: Seq<Seq<u8>>) -> Seq<Seq<u8>> {
    if rest.len() == 0 {
        if cur.len() == 0 {
            Seq::empty()
        } else {
            seq![cur]
        }
    } else {
        seq![cur + rest[0]] + rest.drop_first()
    }
}

proof fn lemma_byte_lines_len(s: Seq<u8>)
    ensures
        (byte_lines(s).len() == 0) == (s.len() == 0),
{
}

#[verifier::loop_isolation(false)]
pub fn split_lines(bytes: &Vec<u8>) -> (r: Vec<Vec<u8>>)
    ensures
        r.deep_view() == byte_lines(bytes@),
{
    let n = bytes.len();
    let mut out: Vec<Vec<u8>> = Vec::new();
    let mut cur: Vec<u8> = Vec::new();
    let mut i: usize = 0;
    proof {
        assert(bytes@.skip(0) =~= bytes@);
        assert(lines_acc(Seq::<u8>::empty(), byte_lines(bytes@)) =~~= byte_lines(bytes@));
        assert(out.deep_view() + byte_lines(bytes@) =~~= byte_lines(bytes@));
    }
    while i < n
        invariant
            i <= n,
            n == bytes@.len(),
            byte_lines(bytes@) == out.deep_view() + lines_acc(
                cur@,
                byte_lines(bytes@.skip(i as int)),
            ),
        decreases n - i,
    {
        let ghost tail = bytes@.skip(i as int);
        proof {
            assert(tail.len() == n - i);
            assert(tail[0] == bytes@[i as int]);
            assert(tail.skip(1) =~= bytes@.skip(i as int + 1));
        }
        let b = bytes[i];
        let ghost out0 = out.deep_view();
        let ghost cur0 = cur@;
        if b == 10 {
            let ghost rest = byte_lines(bytes@.skip(i as int + 1));
            proof {
                assert(byte_lines(tail) == seq![Seq::<u8>::empty()] + rest);
                assert(lines_acc(cur0, byte_lines(tail)) =~~= seq![cur0] + rest);
                assert(lines_acc(Seq::<u8>::empty(), rest) =~~= rest);
                assert(out0.push(cur0) + rest =~~= out0 + (seq![cur0] + rest));
            }
            out.push(cur);
            cur = Vec::new();
            proof {
                assert(out.deep_view() =~~= out0.push(cur0));
            }
            i = i + 1;
        } else if b == 13 && i + 1 < n && bytes[i + 1] == 10 {
            let ghost rest = byte_lines(bytes@.skip(i as int + 2));
            proof {
                assert(tail.len() >= 2);
                assert(tail[1] == bytes@[i as int + 1]);
                assert(tail.skip(2) =~= bytes@.skip(i as int + 2));
                assert(byte_lines(tail) == seq![Seq::<u8>::empty()] + rest);
                assert(lines_acc(cur0, byte_lines(tail)) =~~= seq![cur0] + rest);
                assert(lines_acc(Seq::<u8>::empty(), rest) =~~= rest);
                assert(out0.push(cur0) + rest =~~= out0 + (seq![cur0] + rest));
            }
            out.push(cur);
            cur = Vec::new();
            proof {
                assert(out.deep_view() =~~= out0.push(cur0));
            }
            i = i + 2;
        } else {
            let ghost rest = byte_lines(bytes@.skip(i as int + 1));
            proof {
                if rest.len() == 0 {
                    lemma_byte_lines_len(bytes@.skip(i as int + 1));
                    assert(tail =~= seq![b]);
                    assert(byte_lines(tail) == seq![tail]);
                    assert(lines_acc(cur@, byte_lines(tail)) =~~= seq![cur@.push(b)]);
                    assert(lines_acc(cur@.push(b), rest) =~~= seq![cur@.push(b)]);
                } else {
                    assert(byte_lines(tail) == seq![seq![b] + rest[0]] + rest.drop_first());
                    assert(cur@ + (seq![b] + rest[0]) =~= cur@.push(b) + rest[0]);
                    assert(lines_acc(cur@, byte_lines(tail)) =~~= lines_acc(cur@.push(b), rest));
                }
            }
            cur.push(b);
            i = i + 1;
        }
    }
    proof {
        assert(bytes@.skip(n as int) =~= Seq::<u8>::empty());
        assert(byte_lines(Seq::<u8>::empty()) == Seq::<Seq<u8>>::empty());
    }
    if cur.len() > 0 {
        out.push(cur);
        proof {
            assert(out.deep_view() =~~= byte_lines(bytes@));
        }
    } else {
        proof {
            assert(out.deep_view() + Seq::<Seq<u8>>::empty() =~~= out.deep_view());
        }
    }
    out
}

// ---------------------------------------------------------------------------
// decoding lines

/// Every line of the byte sequence decodes as UTF-8. Splitting happens at
/// ASCII newline bytes, so this coincides with the whole sequence being
/// valid UTF-8.
pub open spec fn lines_decodable(bs: Seq<u8>) -> bool {
    forall|k: int| 0 <= k < byte_lines(bs).len() ==> valid_utf8(#[trigger] byte_lines(bs)[k])
}

/// The decoded first `k` lines.
pub open spec fn decoded_prefix(ls: Seq<Seq<u8>>, k: int) -> Seq<Seq<char>> {
    ls.take(k).map_values(|l: Seq<u8>| decode_utf8(l))
}

/// Relies on `String::from_utf8`: it succeeds exactly on valid UTF-8 input
/// and then decodes the bytes to the corresponding characters.
#[verifier::external_body]
fn line_to_string(line: &Vec<u8>) -> (r: Option<String>)
    ensures
        r is Some <==> valid_utf8(line@),
        (r matches Some(s) ==> s@ == decode_utf8(line@)),
{
    String::from_utf8(line.clone()).ok()
}

// ---------------------------------------------------------------------------
// line validity coincides with whole-sequence validity
//
// Splitting happens only at ASCII newline and carriage-return bytes, which
// never occur inside a multi-byte UTF-8 encoding, so a byte sequence is
// valid UTF-8 exactly when each of its lines is.

/// One position is ordinary for line splitting: not a newline, and not a
/// carriage return directly before a newline.
spec fn normal_at(s: Seq<u8>, i: int) -> bool {
    s[i] != 10 && !(s[i] == 13 && i + 1 < s.len() && s[i + 1] == 10)
}

proof fn lemma_byte_lines_normal_step(s: Seq<u8>)
    requires
        s.len() > 0,
        normal_at(s, 0),
    ensures
        byte_lines(s) == lines_acc(seq![s[0]], byte_lines(s.skip(1))),
{
    let rest = byte_lines(s.skip(1));
    if rest.len() == 0 {
        lemma_byte_lines_len(s.skip(1));
        assert(s =~= seq![s[0]]);
        assert(byte_lines(s) == seq![s]);
        assert(byte_lines(s) =~~= lines_acc(seq![s[0]], rest));
    } else {
        assert(byte_lines(s) == seq![seq![s[0]] + rest[0]] + rest.drop_first());
    }
}

proof fn lemma_lines_acc_compose(a: Seq<u8>, b: Seq<u8>, r: Seq<Seq<u8>>)
    ensures
        lines_acc(a, lines_acc(b, r)) == lines_acc(a + b, r),
{
    if r.len() == 0 {
        if b.len() == 0 {
            assert(a + b =~= a);
            assert(lines_acc(a, lines_acc(b, r)) =~~= lines_acc(a + b, r));
        } else {
            assert(lines_acc(b, r) == seq![b]);
            assert(lines_acc(a, seq![b]) =~~= seq![a + b]);
            assert(lines_acc(a + b, r) =~~= seq![a + b]);
        }
    } else {
        let x = lines_acc(b, r);
        assert(x == seq![b + r[0]] + r.drop_first());
        assert(x.len() > 0);
        assert(x[0] == b + r[0]);
        assert(x.drop_first() =~~= r.drop_first());
        assert(a + (b + r[0]) =~= (a + b) + r[0]);
        assert(lines_acc(a, x) =~~= seq![(a + b) + r[0]] + r.drop_first());
        assert(lines_acc(a + b, r) =~~= seq![(a + b) + r[0]] + r.drop_first());
    }
}

proof fn lemma_byte_lines_block(s: Seq<u8>, w: int)
    requires
        0 <= w <= s.len(),
        forall|i: int| 0 <= i < w ==> normal_at(s, i),
    ensures
        byte_lines(s) == lines_acc(s.take(w), byte_lines(s.skip(w))),
    decreases w,
{
    if w == 0 {
        assert(s.take(0) =~= Seq::<u8>::empty());
        assert(s.skip(0) =~= s);
        assert(lines_acc(Seq::<u8>::empty(), byte_lines(s)) =~~= byte_lines(s));
    } else {
        assert(normal_at(s, 0));
        lemma_byte_lines_normal_step(s);
        let s1 = s.skip(1);
        assert forall|i: int| 0 <= i < w - 1 implies normal_at(s1, i) by {
            assert(s1[i] == s[i + 1]);
            assert(i + 1 < s1.len() ==> s1[i + 1] == s[i + 2]);
            assert(normal_at(s, i + 1));
        }
        lemma_byte_lines_block(s1, w - 1);
        lemma_lines_acc_compose(seq![s[0]], s1.take(w - 1), byte_lines(s1.skip(w - 1)));
        assert(seq![s[0]] + s1.take(w - 1) =~= s.take(w));
        assert(s1.skip(w - 1) =~= s.skip(w));
    }
}

proof fn lemma_first_line_prefix(s: Seq<u8>)
    ensures
        byte_lines(s).len() > 0 ==> byte_lines(s)[0].len() <= s.len(),
        byte_lines(s).len() > 0 ==> forall|i: int|
            0 <= i < byte_lines(s)[0].len() ==> byte_lines(s)[0][i] == s[i],
    decreases s.len(),
{
    if s.len() == 0 {
    } else if s[0] == 10 {
    } else if s[0] == 13 && s.len() >= 2 && s[1] == 10 {
    } else {
        lemma_first_line_prefix(s.skip(1));
        let rest = byte_lines(s.skip(1));
        if rest.len() == 0 {
            assert(byte_lines(s) == seq![s]);
        } else {
            assert(byte_lines(s)[0] == seq![s[0]] + rest[0]);
            assert forall|i: int| 0 <= i < byte_lines(s)[0].len() implies byte_lines(s)[0][i]
                == s[i] by {
                if i > 0 {
                    assert(byte_lines(s)[0][i] == rest[0][i - 1]);
                    assert(rest[0][i - 1] == s.skip(1)[i - 1]);
                }
            }
        }
    }
}

proof fn lemma_first_scalar_facts(s: Seq<u8>)
    requires
        valid_first_scalar(s),
    ensures
        1 <= length_of_first_scalar(s) <= s.len(),
        forall|i: int| 1 <= i < length_of_first_scalar(s) ==> is_continuation_byte(s[i]),
{
}

proof fn lemma_ascii_byte_valid(b: u8)
    requires
        b < 0x80,
    ensures
        valid_utf8(seq![b]),
{
    let s = seq![b];
    assert(is_leading_byte_width_1(b));
    assert(b & 0x7f == b) by (bit_vector)
        requires
            b < 0x80,
    ;
    assert(valid_first_scalar(s));
    assert(length_of_first_scalar(s) == 1);
    assert(pop_first_scalar(s) =~= Seq::<u8>::empty());
    assert(valid_utf8(Seq::<u8>::empty()));
}

proof fn lemma_boundary_at_first_scalar(s: Seq<u8>)
    requires
        valid_utf8(s),
        s.len() > 0,
    ensures
        is_char_boundary(s, length_of_first_scalar(s)),
{
    reveal_with_fuel(is_char_boundary, 2);
    lemma_first_scalar_facts(s);
}

/// Law: a byte sequence is valid UTF-8 exactly when each of its lines is.
pub proof fn lemma_lines_decodable_iff_valid_utf8(s: Seq<u8>)
    ensures
        lines_decodable(s) <==> valid_utf8(s),
    decreases s.len(),
{
    if s.len() == 0 {
        assert(byte_lines(s).len() == 0);
    } else if s[0] == 10 || (s[0] == 13 && s.len() >= 2 && s[1] == 10) {
        let step: int = if s[0] == 10 {
            1
        } else {
            2
        };
        let tail = s.skip(step);
        lemma_lines_decodable_iff_valid_utf8(tail);
        assert(byte_lines(s) == seq![Seq::<u8>::empty()] + byte_lines(tail));
        assert(valid_utf8(Seq::<u8>::empty()));
        if valid_utf8(s) {
            assert(is_leading_byte_width_1(s[0]));
            assert(length_of_first_scalar(s) == 1);
            lemma_boundary_at_first_scalar(s);
            valid_utf8_split(s, 1);
            let s1 = s.subrange(1, s.len() as int);
            assert(valid_utf8(s1));
            if step == 2 {
                assert(s1[0] == 10);
                assert(is_leading_byte_width_1(s1[0]));
                assert(length_of_first_scalar(s1) == 1);
                lemma_boundary_at_first_scalar(s1);
                valid_utf8_split(s1, 1);
                assert(s1.subrange(1, s1.len() as int) =~= tail);
            } else {
                assert(s1 =~= tail);
            }
            assert(valid_utf8(tail));
            assert forall|k: int| 0 <= k < byte_lines(s).len() implies valid_utf8(
                #[trigger] byte_lines(s)[k],
            ) by {
                if k > 0 {
                    assert(byte_lines(s)[k] == byte_lines(tail)[k - 1]);
                }
            }
        }
        if lines_decodable(s) {
            assert forall|k: int| 0 <= k < byte_lines(tail).len() implies valid_utf8(
                #[trigger] byte_lines(tail)[k],
            ) by {
                assert(byte_lines(tail)[k] == byte_lines(s)[k + 1]);
                assert(valid_utf8(byte_lines(s)[k + 1]));
            }
            assert(valid_utf8(tail));
            lemma_ascii_byte_valid(10);
            if step == 2 {
                lemma_ascii_byte_valid(13);
                valid_utf8_concat(seq![10u8], tail);
                valid_utf8_concat(seq![13u8], seq![10u8] + tail);
                assert(seq![13u8] + (seq![10u8] + tail) =~= s);
            } else {
                valid_utf8_concat(seq![10u8], tail);
                assert(seq![10u8] + tail =~= s);
            }
        }
    } else {
        assert(normal_at(s, 0));
        lemma_byte_lines_len(s);
        if valid_utf8(s) {
            lemma_first_scalar_facts(s);
            let w = length_of_first_scalar(s);
            assert forall|i: int| 0 <= i < w implies normal_at(s, i) by {
                if i > 0 {
                    assert(is_continuation_byte(s[i]));
                }
                if 0 < i + 1 < w {
                    assert(is_continuation_byte(s[i + 1]));
                }
            }
            lemma_byte_lines_block(s, w);
            lemma_boundary_at_first_scalar(s);
            valid_utf8_split(s, w);
            assert(s.subrange(0, w) =~= s.take(w));
            assert(s.subrange(w, s.len() as int) =~= s.skip(w));
            lemma_lines_decodable_iff_valid_utf8(s.skip(w));
            let r = byte_lines(s.skip(w));
            assert forall|k: int| 0 <= k < byte_lines(s).len() implies valid_utf8(
                #[trigger] byte_lines(s)[k],
            ) by {
                if r.len() == 0 {
                    assert(byte_lines(s) == seq![s.take(w)]);
                    assert(valid_utf8(s.take(w)));
                } else {
                    assert(byte_lines(s) == seq![s.take(w) + r[0]] + r.drop_first());
                    if k == 0 {
                        assert(valid_utf8(r[0]));
                        valid_utf8_concat(s.take(w), r[0]);
                    } else {
                        assert(byte_lines(s)[k] == r[k]);
                        assert(valid_utf8(r[k]));
                    }
                }
            }
        }
        if lines_decodable(s) && s.len() > 0 {
            lemma_first_line_prefix(s);
            lemma_byte_lines_normal_step(s);
            let line0 = byte_lines(s)[0];
            assert(line0.len() > 0) by {
                let rest = byte_lines(s.skip(1));
                if rest.len() == 0 {
                    assert(byte_lines(s) == seq![s]);
                } else {
                    assert(byte_lines(s) == seq![seq![s[0]] + rest[0]] + rest.drop_first());
                }
            }
            assert(valid_utf8(line0));
            assert(valid_first_scalar(line0));
            lemma_first_scalar_facts(line0);
            let w = length_of_first_scalar(line0);
            assert(forall|i: int| 0 <= i < line0.len() ==> line0[i] == s[i]);
            assert(valid_first_scalar(s) && length_of_first_scalar(s) == w) by {
                assert(s[0] == line0[0]);
                if w >= 2 {
                    assert(s[1] == line0[1]);
                }
                if w >= 3 {
                    assert(s[2] == line0[2]);
                }
                if w >= 4 {
                    assert(s[3] == line0[3]);
                }
            }
            assert forall|i: int| 0 <= i < w implies normal_at(s, i) by {
                if i > 0 {
                    assert(is_continuation_byte(line0[i]));
                    assert(s[i] == line0[i]);
                }
                if 0 < i + 1 < w {
                    assert(is_continuation_byte(line0[i + 1]));
                    assert(s[i + 1] == line0[i + 1]);
                }
            }
            lemma_byte_lines_block(s, w);
            let r = byte_lines(s.skip(w));
            if r.len() == 0 {
                lemma_byte_lines_len(s.skip(w));
                assert(byte_lines(s) == seq![s.take(w)]);
                assert(line0 == s.take(w));
                assert(s =~= line0);
                assert(valid_utf8(s));
            } else {
                assert(byte_lines(s) == seq![s.take(w) + r[0]] + r.drop_first());
                assert(line0 == s.take(w) + r[0]);
                lemma_boundary_at_first_scalar(line0);
                valid_utf8_split(line0, w);
                assert(line0.subrange(0, w) =~= s.take(w));
                assert(line0.subrange(w, line0.len() as int) =~= r[0]);
                assert forall|k: int| 0 <= k < byte_lines(s.skip(w)).len() implies valid_utf8(
                    #[trigger] byte_lines(s.skip(w))[k],
                ) by {
                    if k == 0 {
                        assert(valid_utf8(line0.subrange(w, line0.len() as int)));
                    } else {
                        assert(byte_lines(s)[k] == r[k]);
                        assert(valid_utf8(byte_lines(s)[k]));
                    }
                }
                lemma_lines_decodable_iff_valid_utf8(s.skip(w));
                assert(valid_utf8(s.skip(w)));
                valid_utf8_concat(s.take(w), s.skip(w));
                assert(s.take(w) + s.skip(w) =~= s);
                assert(valid_utf8(s));
            }
        }
    }
}

// ---------------------------------------------------------------------------
// file names: extension and image detection

/// The extension of a file name: the characters after the last dot, where
/// that dot is neither the first character nor absent.
pub open spec fn ext_of(s: Seq<char>) -> Option<Seq<char>>
    decreases s.len(),
{
    if s.len() <= 1 {
        None
    } else if s.last() == '.' {
        Some(Seq::empty())
    } else {
        match ext_of(s.drop_last()) {
            Some(e) => Some(e.push(s.last())),
            None => None,
        }
    }
}

proof fn lemma_ext_of_found(s: Seq<char>, d: int)
    requires
        1 <= d < s.len(),
        s[d] == '.',
        forall|k: int| d < k < s.len() ==> s[k] != '.',
    ensures
        ext_of(s) == Some(s.skip(d + 1)),
    decreases s.len(),
{
    if d == s.len() - 1 {
        assert(s.skip(d + 1) =~= Seq::<char>::empty());
    } else {
        lemma_ext_of_found(s.drop_last(), d);
        assert(s.drop_last().skip(d + 1).push(s.last()) =~= s.skip(d + 1));
    }
}

proof fn lemma_ext_of_none(s: Seq<char>)
    requires
        forall|k: int| 1 <= k < s.len() ==> s[k] != '.',
    ensures
        ext_of(s) is None,
    decreases s.len(),
{
    if s.len() > 1 {
        lemma_ext_of_none(s.drop_last());
    }
}

/// Extract the extension of a file name, as `ext_of` describes it.
#[verifier::loop_isolation(false)]
pub fn extension_of(name: &str) -> (r: Option<String>)
    ensures
        r is Some <==> ext_of(name@) is Some,
        (r matches Some(e) ==> ext_of(name@) == Some(e@)),
{
    let len = name.unicode_len();
    if len <= 1 {
        return None;
    }
    let mut j: usize = len;
    while j > 1
        invariant
            1 <= j <= len,
            forall|k: int| j <= k < len ==> name@[k] != '.',
        decreases j,
    {
        j = j - 1;
        if name.get_char(j) == '.' {
            let ext = name.substring_char(j + 1, len).to_owned();
            proof {
                lemma_ext_of_found(name@, j as int);
                assert(name@.subrange(j + 1, len as int) =~= name@.skip(j + 1));
            }
            return Some(ext);
        }
    }
    proof {
        lemma_ext_of_none(name@);
    }
    None
}

/// ASCII case folding of one character, as a codepoint.
pub open spec fn fold_char(c: char) -> int {
    if 65 <= c as u32 && c as u32 <= 90 {
        c as u32 + 32
    } else {
        c as u32 as int
    }
}

/// Equality of character sequences up to ASCII case.
pub open spec fn ieq(a: Seq<char>, b: Seq<char>) -> bool {
    a.len() == b.len() && forall|k: int| 0 <= k < a.len() ==> fold_char(a[k]) == fold_char(b[k])
}

/// The fixed image-extension set, compared case-insensitively.
pub open spec fn is_image_ext(e: Seq<char>) -> bool {
    ||| ieq(e, "png"@)
    ||| ieq(e, "jpg"@)
    ||| ieq(e, "jpeg"@)
    ||| ieq(e, "gif"@)
    ||| ieq(e, "bmp"@)
    ||| ieq(e, "webp"@)
    ||| ieq(e, "svg"@)
    ||| ieq(e, "ico"@)
}

#[verifier::loop_isolation(false)]
fn eq_fold(a: &str, b: &str) -> (r: bool)
    ensures
        r == ieq(a@, b@),
{
    let a_len = a.unicode_len();
    let b_len = b.unicode_len();
    if a_len != b_len {
        return false;
    }
    let mut i: usize = 0;
    while i < a_len
        invariant
            i <= a_len,
            forall|k: int| 0 <= k < i ==> fold_char(a@[k]) == fold_char(b@[k]),
        decreases a_len - i,
    {
        let ua = a.get_char(i) as u32;
        let ub = b.get_char(i) as u32;
        let fa = if 65 <= ua && ua <= 90 {
            ua + 32
        } else {
            ua
        };
        let fb = if 65 <= ub && ub <= 90 {
            ub + 32
        } else {
            ub
        };
        if fa != fb {
            return false;
        }
        i = i + 1;
    }
    true
}

/// Decide membership in the image-extension set.
pub fn is_image(ext: &str) -> (r: bool)
    ensures
        r == is_image_ext(ext@),
{
    eq_fold(ext, "png") || eq_fold(ext, "jpg") || eq_fold(ext, "jpeg") || eq_fold(ext, "gif")
        || eq_fold(ext, "bmp") || eq_fold(ext, "webp") || eq_fold(ext, "svg") || eq_fold(
        ext,
        "ico",
    )
}

// ---------------------------------------------------------------------------
// file preview

pub open spec fn shown_count(n: int) -> int {
    if n > PREVIEW_MAX_LINES {
        PREVIEW_MAX_LINES as int
    } else {
        n
    }
}

/// What the preview of a file with the given name and content must be:
/// binary notice, invalid-encoding notice, or a text excerpt of at most
/// `PREVIEW_MAX_LINES` decoded lines.
pub open spec fn file_bytes_matches(name: Seq<char>, bs: Seq<u8>, r: PreviewResult) -> bool {
    if is_binary(bs) {
        r matches PreviewResult::BinaryNotice { byte_size } && byte_size == bs.len()
    } else if !valid_utf8(bs) {
        r matches PreviewResult::InvalidEncoding { byte_size } && byte_size == bs.len()
    } else {
        r matches PreviewResult::TextPreview {
            file_name,
            byte_size,
            total_line_count,
            shown_lines,
            truncated,
        } && file_name@ == name && byte_size == bs.len() && total_line_count == byte_lines(
            bs,
        ).len() && truncated == (byte_lines(bs).len() > PREVIEW_MAX_LINES) && shown_lines.deep_view()
            == decoded_prefix(byte_lines(bs), shown_count(byte_lines(bs).len() as int))
    }
}

/// Classify file content: binary notice, invalid encoding, or a text
/// excerpt of the first lines.
#[verifier::loop_isolation(false)]
pub fn preview_file_bytes(file_name: String, bytes: Vec<u8>) -> (r: PreviewResult)
    ensures
        file_bytes_matches(file_name@, bytes@, r),
{
    let size = bytes.len() as u64;
    if looks_binary(&bytes) {
        return PreviewResult::BinaryNotice { byte_size: size };
    }
    let lines = split_lines(&bytes);
    let total = lines.len();
    let mut shown: Vec<String> = Vec::new();
    let mut i: usize = 0;
    proof {
        assert(decoded_prefix(lines.deep_view(), 0) =~~= Seq::<Seq<char>>::empty());
    }
    while i < total
        invariant
            i <= total,
            total == lines@.len(),
            lines.deep_view() == byte_lines(bytes@),
            forall|k: int| 0 <= k < i ==> valid_utf8(#[trigger] lines.deep_view()[k]),
            shown.deep_view() == decoded_prefix(
                lines.deep_view(),
                if i < PREVIEW_MAX_LINES {
                    i as int
                } else {
                    PREVIEW_MAX_LINES as int
                },
            ),
        decreases total - i,
    {
        proof {
            assert(lines.deep_view()[i as int] == lines@[i as int]@);
        }
        match line_to_string(&lines[i]) {
            None => {
                proof {
                    assert(!valid_utf8(byte_lines(bytes@)[i as int]));
                    lemma_lines_decodable_iff_valid_utf8(bytes@);
                }
                return PreviewResult::InvalidEncoding { byte_size: size };
            },
            Some(s) => {
                if i < PREVIEW_MAX_LINES {
                    let ghost shown0 = shown.deep_view();
                    let ghost line_i = lines.deep_view()[i as int];
                    shown.push(s);
                    proof {
                        assert(shown.deep_view() =~~= shown0.push(decode_utf8(line_i)));
                        assert(decoded_prefix(lines.deep_view(), i + 1) =~~= decoded_prefix(
                            lines.deep_view(),
                            i as int,
                        ).push(decode_utf8(line_i)));
                    }
                }
            },
        }
        i = i + 1;
    }
    proof {
        lemma_lines_decodable_iff_valid_utf8(bytes@);
    }
    PreviewResult::TextPreview {
        file_name,
        byte_size: size,
        total_line_count: total,
        shown_lines: shown,
        truncated: total > PREVIEW_MAX_LINES,
    }
}

// ---------------------------------------------------------------------------
// directory summary

/// Keys of the visible subdirectories, decorated with a trailing `/`, in
/// input order.
pub open spec fn meta_dir_keys(cs: Seq<ChildMeta>) -> Seq<(Seq<char>, EntryKind)> {
    cs.filter(|c: ChildMeta| !hidden(c.name@) && c.is_dir).map_values(
        |c: ChildMeta| (c.name@ + "/"@, EntryKind::Directory),
    )
}

/// Keys of the visible files, in input order.
pub open spec fn meta_file_keys(cs: Seq<ChildMeta>) -> Seq<(Seq<char>, EntryKind)> {
    cs.filter(|c: ChildMeta| !hidden(c.name@) && !c.is_dir).map_values(
        |c: ChildMeta| (c.name@, EntryKind::File),
    )
}

/// What one child adds to the size total: its size for a visible file with
/// known metadata, nothing otherwise.
pub open spec fn size_of_child(c: ChildMeta) -> int {
    if !hidden(c.name@) && !c.is_dir {
        match c.size {
            Some(v) => v as int,
            None => 0,
        }
    } else {
        0
    }
}

pub open spec fn sum_sizes(cs: Seq<ChildMeta>) -> int
    decreases cs.len(),
{
    if cs.len() == 0 {
        0
    } else {
        sum_sizes(cs.drop_last()) + size_of_child(cs.last())
    }
}

proof fn lemma_sum_sizes_nonneg(cs: Seq<ChildMeta>)
    ensures
        sum_sizes(cs) >= 0,
    decreases cs.len(),
{
    if cs.len() > 0 {
        lemma_sum_sizes_nonneg(cs.drop_last());
    }
}

pub open spec fn clamp_u64(v: int) -> u64 {
    if v > u64::MAX {
        u64::MAX
    } else if v < 0 {
        0
    } else {
        v as u64
    }
}

pub open spec fn names_of(ks: Seq<(Seq<char>, EntryKind)>) -> Seq<Seq<char>> {
    ks.map_values(|k: (Seq<char>, EntryKind)| k.0)
}

/// Appending one child extends the partitioned keys and the size sum.
proof fn lemma_meta_push(cs: Seq<ChildMeta>, c: ChildMeta)
    ensures
        meta_dir_keys(cs.push(c)) == (if !hidden(c.name@) && c.is_dir {
            meta_dir_keys(cs).push((c.name@ + "/"@, EntryKind::Directory))
        } else {
            meta_dir_keys(cs)
        }),
        meta_file_keys(cs.push(c)) == (if !hidden(c.name@) && !c.is_dir {
            meta_file_keys(cs).push((c.name@, EntryKind::File))
        } else {
            meta_file_keys(cs)
        }),
        sum_sizes(cs.push(c)) == sum_sizes(cs) + size_of_child(c),
{
    let s = cs.push(c);
    assert(s.drop_last() =~= cs);
    assert(s.last() == c);
    reveal_with_fuel(Seq::filter, 2);
    let dpred = |x: ChildMeta| !hidden(x.name@) && x.is_dir;
    let fpred = |x: ChildMeta| !hidden(x.name@) && !x.is_dir;
    if dpred(c) {
        assert(s.filter(dpred) == cs.filter(dpred).push(c));
        assert(cs.filter(dpred).push(c).map_values(
            |x: ChildMeta| (x.name@ + "/"@, EntryKind::Directory),
        ) =~= cs.filter(dpred).map_values(|x: ChildMeta| (x.name@ + "/"@, EntryKind::Directory)).push(
            (c.name@ + "/"@, EntryKind::Directory),
        ));
    } else {
        assert(s.filter(dpred) == cs.filter(dpred));
    }
    if fpred(c) {
        assert(s.filter(fpred) == cs.filter(fpred).push(c));
        assert(cs.filter(fpred).push(c).map_values(|x: ChildMeta| (x.name@, EntryKind::File)) =~= cs
            .filter(fpred).map_values(|x: ChildMeta| (x.name@, EntryKind::File)).push(
            (c.name@, EntryKind::File),
        ));
    } else {
        assert(s.filter(fpred) == cs.filter(fpred));
    }
}

/// What the summary of a directory with the given children must hold:
/// counts of visible subdirectories and files, their total known file
/// bytes (saturating), the first `SUMMARY_MAX_ITEMS` names with
/// subdirectories sorted first, and how many names were cut off.
pub open spec fn dir_summary_matches(cs: Seq<ChildMeta>, r: PreviewResult) -> bool {
    let dirs = meta_dir_keys(cs);
    let files = meta_file_keys(cs);
    let all_names = names_of(sort_keys(dirs) + sort_keys(files));
    r matches PreviewResult::DirectorySummary {
        subdir_count,
        file_count,
        total_bytes,
        listed_items,
        truncated_count,
    } && subdir_count == dirs.len() && file_count == files.len() && total_bytes == clamp_u64(
        sum_sizes(cs),
    ) && listed_items.deep_view() == all_names.take(
        if dirs.len() + files.len() > SUMMARY_MAX_ITEMS {
            SUMMARY_MAX_ITEMS as int
        } else {
            dirs.len() + files.len() as int
        },
    ) && truncated_count == (if dirs.len() + files.len() > SUMMARY_MAX_ITEMS {
        dirs.len() + files.len() - SUMMARY_MAX_ITEMS
    } else {
        0
    })
}

/// Summarise a directory's children: visible subdirectories first, then
/// visible files, each sorted by name, capped at `SUMMARY_MAX_ITEMS`
/// listed names.
#[verifier::loop_isolation(false)]
#[verifier::rlimit(30)]
pub fn preview_directory(children: Vec<ChildMeta>) -> (r: PreviewResult)
    ensures
        dir_summary_matches(children@, r),
{
    let ghost orig: Seq<ChildMeta> = children@;
    let mut rest = children;
    let mut dirs: Vec<Entry> = Vec::new();
    let mut files: Vec<Entry> = Vec::new();
    let mut total: u64 = 0;
    while rest.len() > 0
        invariant
            rest@ == orig.skip(orig.len() - rest@.len()),
            rest@.len() <= orig.len(),
            keys_of(dirs@) == meta_dir_keys(orig.take(orig.len() - rest@.len())),
            keys_of(files@) == meta_file_keys(orig.take(orig.len() - rest@.len())),
            total == clamp_u64(sum_sizes(orig.take(orig.len() - rest@.len()))),
        decreases rest@.len(),
    {
        let ghost i = orig.len() - rest@.len();
        assert(rest@[0] == orig[i]);
        let c = rest.remove(0);
        proof {
            assert(rest@ =~= orig.skip(i + 1));
            assert(orig.take(i + 1) =~= orig.take(i).push(orig[i]));
            lemma_meta_push(orig.take(i), orig[i]);
            lemma_sum_sizes_nonneg(orig.take(i));
        }
        let is_hidden = {
            let len = c.name.unicode_len();
            len > 0 && c.name.get_char(0) == '.'
        };
        assert(is_hidden == hidden(c.name@));
        if !is_hidden {
            if c.is_dir {
                let e = Entry { name: c.name.concat("/"), kind: EntryKind::Directory };
                dirs.push(e);
                proof {
                    assert(keys_of(dirs@) =~= meta_dir_keys(orig.take(i + 1)));
                }
            } else {
                match c.size {
                    Some(v) => {
                        total = if total > u64::MAX - v {
                            u64::MAX
                        } else {
                            total + v
                        };
                    },
                    None => {},
                }
                let e = Entry { name: c.name, kind: EntryKind::File };
                files.push(e);
                proof {
                    assert(keys_of(files@) =~= meta_file_keys(orig.take(i + 1)));
                }
            }
        }
    }
    proof {
        assert(orig.take(orig.len() - rest@.len()) =~= orig);
    }
    let mut combined = sort_entries(dirs);
    let subdir_count = combined.len();
    let mut files_sorted = sort_entries(files);
    let file_count = files_sorted.len();
    combined.append(&mut files_sorted);
    proof {
        crate::entry::lemma_sort_keys_sorted(meta_dir_keys(orig));
        crate::entry::lemma_sort_keys_sorted(meta_file_keys(orig));
        assert(keys_of(combined@) =~= sort_keys(meta_dir_keys(orig)) + sort_keys(
            meta_file_keys(orig),
        ));
    }
    let item_count = combined.len();
    let limit: usize = if item_count > SUMMARY_MAX_ITEMS {
        SUMMARY_MAX_ITEMS
    } else {
        item_count
    };
    let truncated_count: usize = item_count - limit;
    let mut listed: Vec<String> = Vec::new();
    let mut i: usize = 0;
    proof {
        assert(listed.deep_view() =~~= names_of(keys_of(combined@)).take(0));
    }
    while i < limit
        invariant
            i <= limit,
            limit <= combined@.len(),
            listed.deep_view() == names_of(keys_of(combined@)).take(i as int),
        decreases limit - i,
    {
        let name = combined[i].name.clone();
        listed.push(name);
        proof {
            assert(keys_of(combined@)[i as int] == crate::entry::entry_key(combined@[i as int]));
            assert(listed.deep_view() =~~= names_of(keys_of(combined@)).take(i + 1));
        }
        i = i + 1;
    }
    PreviewResult::DirectorySummary {
        subdir_count,
        file_count,
        total_bytes: total,
        listed_items: listed,
        truncated_count,
    }
}

// ---------------------------------------------------------------------------
// putting a probe together with the selected entry

/// What the preview of a file entry must be, given its name, its metadata
/// size where available, and the outcome of reading it where a read was
/// attempted: the image placeholder wins, then the size cap, then the
/// content classification.
pub open spec fn file_probe_matches(
    name: Seq<char>,
    size: Option<u64>,
    content: Option<Result<Vec<u8>, String>>,
    r: PreviewResult,
) -> bool {
    if ext_of(name) matches Some(x) && is_image_ext(x) {
        r matches PreviewResult::ImagePlaceholder { extension } && Some(extension@) == ext_of(name)
    } else if size matches Some(s) && s > PREVIEW_MAX_BYTES {
        r matches PreviewResult::TooLarge { byte_size } && byte_size == size->0
    } else {
        match content {
            None => r matches PreviewResult::AccessError { message } && message@
                == "file content unavailable"@,
            Some(res) => match res {
                Ok(bytes) => file_bytes_matches(name, bytes@, r),
                Err(m) => r matches PreviewResult::AccessError { message } && message@ == m@,
            },
        }
    }
}

/// What the preview of the selected entry must be, for every probe the
/// caller can hand in. The parent sentinel gets its fixed hint; otherwise
/// the probe decides between directory summary, file classification and an
/// access error.
pub open spec fn preview_matches(e: Entry, probe: PathProbe, r: PreviewResult) -> bool {
    if e.kind is Parent {
        r is ParentHint
    } else {
        match probe {
            PathProbe::Missing => r matches PreviewResult::AccessError { message } && message@
                == "Unable to access file"@,
            PathProbe::Dir { listing } => match listing {
                Ok(cs) => dir_summary_matches(cs@, r),
                Err(m) => r matches PreviewResult::AccessError { message } && message@ == m@,
            },
            PathProbe::File { size, content } => file_probe_matches(e.name@, size, content, r),
        }
    }
}

/// Whether previewing a file with this name and metadata size requires its
/// content: images and oversized files are never read.
pub fn needs_content(name: &str, size: Option<u64>) -> (b: bool)
    ensures
        b == !((ext_of(name@) matches Some(x) && is_image_ext(x)) || (size matches Some(s) && s
            > PREVIEW_MAX_BYTES)),
{
    match extension_of(name) {
        Some(x) => {
            if is_image(x.as_str()) {
                return false;
            }
        },
        None => {},
    }
    match size {
        Some(s) => {
            if s > PREVIEW_MAX_BYTES {
                return false;
            }
        },
        None => {},
    }
    true
}

/// Generate the preview for the selected entry from what the caller
/// observed about its path.
pub fn generate_preview(e: &Entry, probe: PathProbe) -> (r: PreviewResult)
    ensures
        preview_matches(*e, probe, r),
{
    match e.kind {
        EntryKind::Parent => PreviewResult::ParentHint,
        _ => match probe {
            PathProbe::Missing => PreviewResult::AccessError {
                message: "Unable to access file".to_owned(),
            },
            PathProbe::Dir { listing } => match listing {
                Ok(cs) => preview_directory(cs),
                Err(m) => PreviewResult::AccessError { message: m },
            },
            PathProbe::File { size, content } => {
                match extension_of(e.name.as_str()) {
                    Some(x) => {
                        if is_image(x.as_str()) {
                            return PreviewResult::ImagePlaceholder { extension: x };
                        }
                    },
                    None => {},
                }
                match size {
                    Some(s) => {
                        if s > PREVIEW_MAX_BYTES {
                            return PreviewResult::TooLarge { byte_size: s };
                        }
                    },
                    None => {},
                }
                match content {
                    None => PreviewResult::AccessError {
                        message: "file content unavailable".to_owned(),
                    },
                    Some(res) => match res {
                        Ok(bytes) => preview_file_bytes(e.name.clone(), bytes),
                        Err(m) => PreviewResult::AccessError { message: m },
                    },
                }
            },
        },
    }
}

} // verus!
