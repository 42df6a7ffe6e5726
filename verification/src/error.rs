use vstd::prelude::*;
use vstd::string::StringExecFns;

verus! {

/// Errors of the runtime that the library itself decides.
#[derive(Debug)]
pub enum Error {
    Tokenizer(String),
    GgufOpen(std::path::PathBuf),
    NulPath(std::path::PathBuf),
    MissingMetadata(String),
    InvalidMetadataKey(String),
    MissingTensor(String),
    MissingTensorName(i64),
    TensorIndex(i64),
    InvalidTensorRange { path: std::path::PathBuf, offset: usize, size: usize },
    UnsupportedTensorType { name: String, tensor_type: u32 },
    Ggml(String),
    Incomplete(String),
}

/// Whether `e` is a ggml runtime error with message `message`.
pub open spec fn is_ggml_error(e: Error, message: Seq<char>) -> bool {
    e matches Error::Ggml(m) && m@ == message
}

/// Whether `e` says that a part of the runtime is missing, with message `message`.
pub open spec fn is_incomplete_error(e: Error, message: Seq<char>) -> bool {
    e matches Error::Incomplete(m) && m@ == message
}

/// A ggml runtime error with message `message`.
pub fn ggml_error(message: &str) -> (e: Error)
    ensures
        is_ggml_error(e, message@),
{
    Error::Ggml(String::from_str(message))
}

/// An error saying that a part of the runtime is missing, with message `message`.
pub fn incomplete_error(message: &str) -> (e: Error)
    ensures
        is_incomplete_error(e, message@),
{
    Error::Incomplete(String::from_str(message))
}

/// The character of decimal digit `d`.
pub open spec fn digit_char(d: int) -> char {
    (48 + d) as char
}

/// The decimal digits of `n`, most significant first, with no leading zero.
pub open spec fn decimal(n: nat) -> Seq<char>
    decreases n,
{
    if n < 10 {
        seq![digit_char(n as int)]
    } else {
        decimal(n / 10) + seq![digit_char((n % 10) as int)]
    }
}

/// The text of decimal digit `d`.
fn digit_text(d: usize) -> (s: &'static str)
    requires
        d < 10,
    ensures
        s@ == seq![digit_char(d as int)],
{
    proof {
        reveal_strlit("0");
        reveal_strlit("1");
        reveal_strlit("2");
        reveal_strlit("3");
        reveal_strlit("4");
        reveal_strlit("5");
        reveal_strlit("6");
        reveal_strlit("7");
        reveal_strlit("8");
        reveal_strlit("9");
    }
    if d == 0 {
        "0"
    } else if d == 1 {
        "1"
    } else if d == 2 {
        "2"
    } else if d == 3 {
        "3"
    } else if d == 4 {
        "4"
    } else if d == 5 {
        "5"
    } else if d == 6 {
        "6"
    } else if d == 7 {
        "7"
    } else if d == 8 {
        "8"
    } else {
        "9"
    }
}

/// The decimal digits of `n`, most significant first, with no leading zero.
pub(crate) fn usize_to_decimal(n: usize) -> (s: String)
    ensures
        s@ == decimal(n as nat),
    decreases n,
{
    if n < 10 {
        String::from_str(digit_text(n))
    } else {
        let mut s = usize_to_decimal(n / 10);
        s.append(digit_text(n % 10));
        s
    }
}

/// `s` with each NUL character written as a backslash and a zero.
pub open spec fn escaped_nul(s: Seq<char>) -> Seq<char>
    decreases s.len(),
{
    if s.len() == 0 {
        Seq::empty()
    } else {
        escaped_nul(s.drop_last()) + if s.last() == '\0' {
            seq!['\\', '0']
        } else {
            seq![s.last()]
        }
    }
}

/// No NUL character is left once each one is escaped.
pub proof fn lemma_escaped_has_no_nul(s: Seq<char>)
    ensures
        forall|i: int| 0 <= i < escaped_nul(s).len() ==> escaped_nul(s)[i] != '\0',
    decreases s.len(),
{
    if s.len() > 0 {
        lemma_escaped_has_no_nul(s.drop_last());
        let head = escaped_nul(s.drop_last());
        let tail = if s.last() == '\0' {
            seq!['\\', '0']
        } else {
            seq![s.last()]
        };
        assert(escaped_nul(s) == head + tail);
        assert forall|i: int| 0 <= i < escaped_nul(s).len() implies escaped_nul(s)[i] != '\0' by {
            if i < head.len() {
                assert(escaped_nul(s)[i] == head[i]);
            } else {
                assert(escaped_nul(s)[i] == tail[i - head.len()]);
            }
        }
    }
}

/// An error message made fit for a C string: each NUL character becomes a
/// backslash and a zero, so that none is left.
pub fn escape_nul(message: &str) -> (r: String)
    ensures
        r@ == escaped_nul(message@),
        forall|i: int| 0 <= i < r@.len() ==> r@[i] != '\0',
{
    let n = message.unicode_len();
    let mut r = String::new();
    proof {
        assert(message@.take(0) =~= Seq::<char>::empty());
    }
    for i in 0..n
        invariant
            n == message@.len(),
            r@ == escaped_nul(message@.take(i as int)),
    {
        let c = message.get_char(i);
        proof {
            assert(message@.take(i + 1).drop_last() =~= message@.take(i as int));
        }
        if c == '\0' {
            r.append("\\0");
        } else {
            r.append(message.substring_char(i, i + 1));
        }
        proof {
            reveal_strlit("\\0");
            let next = message@.take(i + 1);
            assert(next.last() == c);
            assert(message@.subrange(i as int, i + 1) =~= seq![c]);
            assert("\\0"@ =~= seq!['\\', '0']);
            assert(escaped_nul(next) == escaped_nul(next.drop_last()) + if c == '\0' {
                seq!['\\', '0']
            } else {
                seq![c]
            });
            assert(r@ =~= escaped_nul(next));
        }
    }
    proof {
        assert(message@.take(n as int) =~= message@);
        lemma_escaped_has_no_nul(message@);
    }
    r
}

} // verus!
