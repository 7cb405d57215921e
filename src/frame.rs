use vstd::prelude::*;

verus! {

/// The byte that separates the segments of a frame (`|`).
pub const DELIMITER: u8 = 124;

/// Number of delimiter bytes in `s`.
pub open spec fn delimiter_count(s: Seq<u8>) -> nat
    decreases s.len(),
{
    if s.len() == 0 {
        0
    } else {
        delimiter_count(s.drop_last()) + if s.last() == DELIMITER {
            1nat
        } else {
            0nat
        }
    }
}

/// `s` is `json`, a delimiter, `middle`, a delimiter and `payload`, where the
/// delimiters are the first two of `s`.
pub open spec fn is_split(s: Seq<u8>, json: Seq<u8>, middle: Seq<u8>, payload: Seq<u8>) -> bool {
    &&& !json.contains(DELIMITER)
    &&& !middle.contains(DELIMITER)
    &&& s == json + seq![DELIMITER] + middle + seq![DELIMITER] + payload
}

/// The bytes of a frame with an empty middle segment.
pub open spec fn frame_bytes(json: Seq<u8>, payload: Seq<u8>) -> Seq<u8> {
    json + seq![DELIMITER, DELIMITER] + payload
}

pub proof fn lemma_count_add(a: Seq<u8>, b: Seq<u8>)
    ensures
        delimiter_count(a + b) == delimiter_count(a) + delimiter_count(b),
    decreases b.len(),
{
    if b.len() == 0 {
        assert(a + b =~= a);
    } else {
        lemma_count_add(a, b.drop_last());
        assert((a + b).drop_last() =~= a + b.drop_last());
    }
}

pub proof fn lemma_count_free(s: Seq<u8>)
    requires
        !s.contains(DELIMITER),
    ensures
        delimiter_count(s) == 0,
    decreases s.len(),
{
    if s.len() > 0 {
        assert(!s.drop_last().contains(DELIMITER)) by {
            if s.drop_last().contains(DELIMITER) {
                let i = choose|i: int| 0 <= i < s.drop_last().len() && s.drop_last()[i] == DELIMITER;
                assert(s[i] == DELIMITER);
            }
        }
        lemma_count_free(s.drop_last());
        assert(s[s.len() - 1] != DELIMITER);
    }
}

proof fn lemma_count_one()
    ensures
        delimiter_count(seq![DELIMITER]) == 1,
{
    let d = seq![DELIMITER];
    assert(d.drop_last() =~= Seq::<u8>::empty());
    assert(delimiter_count(d.drop_last()) == 0);
    assert(d.last() == DELIMITER);
}

proof fn lemma_count_split(s: Seq<u8>, json: Seq<u8>, middle: Seq<u8>, payload: Seq<u8>)
    requires
        is_split(s, json, middle, payload),
    ensures
        delimiter_count(s) == 2 + delimiter_count(payload),
{
    let d = seq![DELIMITER];
    lemma_count_add(json + d + middle + d, payload);
    lemma_count_add(json + d + middle, d);
    lemma_count_add(json + d, middle);
    lemma_count_add(json, d);
    lemma_count_free(json);
    lemma_count_free(middle);
    lemma_count_one();
}

/// A frame has at most one way to be split at its first two delimiters.
pub proof fn lemma_split_unique(
    s: Seq<u8>,
    j1: Seq<u8>,
    m1: Seq<u8>,
    p1: Seq<u8>,
    j2: Seq<u8>,
    m2: Seq<u8>,
    p2: Seq<u8>,
)
    requires
        is_split(s, j1, m1, p1),
        is_split(s, j2, m2, p2),
    ensures
        j1 == j2,
        m1 == m2,
        p1 == p2,
{
    assert(j1.len() == j2.len()) by {
        if j1.len() < j2.len() {
            assert(s[j1.len() as int] == DELIMITER);
            assert(j2[j1.len() as int] == s[j1.len() as int]);
        } else if j2.len() < j1.len() {
            assert(s[j2.len() as int] == DELIMITER);
            assert(j1[j2.len() as int] == s[j2.len() as int]);
        }
    }
    assert(j1 =~= s.subrange(0, j1.len() as int));
    assert(j2 =~= s.subrange(0, j2.len() as int));
    let o: int = j1.len() as int + 1;
    assert(m1.len() == m2.len()) by {
        if m1.len() < m2.len() {
            assert(s[o + m1.len()] == DELIMITER);
            assert(m2[m1.len() as int] == s[o + m1.len()]);
        } else if m2.len() < m1.len() {
            assert(s[o + m2.len()] == DELIMITER);
            assert(m1[m2.len() as int] == s[o + m2.len()]);
        }
    }
    assert(m1 =~= s.subrange(o, o + m1.len()));
    assert(m2 =~= s.subrange(o, o + m2.len()));
    let q: int = o + m1.len() as int + 1;
    assert(p1 =~= s.subrange(q, s.len() as int));
    assert(p2 =~= s.subrange(q, s.len() as int));
}

/// Encoding then splitting gives back the JSON segment and the payload, with
/// an empty middle segment, whatever bytes the payload holds, delimiters
/// included, as long as the JSON segment holds no delimiter.
pub proof fn lemma_frame_round_trip(json: Seq<u8>, payload: Seq<u8>, j: Seq<u8>, m: Seq<u8>, p: Seq<u8>)
    requires
        !json.contains(DELIMITER),
    ensures
        is_split(frame_bytes(json, payload), j, m, p) <==> (j == json && m == Seq::<u8>::empty()
            && p == payload),
{
    let e = Seq::<u8>::empty();
    assert(frame_bytes(json, payload) =~= json + seq![DELIMITER] + e + seq![DELIMITER] + payload);
    assert(is_split(frame_bytes(json, payload), json, e, payload));
    if is_split(frame_bytes(json, payload), j, m, p) {
        lemma_split_unique(frame_bytes(json, payload), j, m, p, json, e, payload);
    }
}

/// Failures of the frame codec.
#[derive(PartialEq, Eq, Structural, Clone, Copy, Debug)]
pub enum FrameError {
    /// Fewer than two delimiter bytes in the frame.
    FrameFormatError,
    /// The JSON segment is not valid UTF-8, or does not match the schema.
    PayloadDecodeError,
}

/// The three segments of a frame.
pub struct FrameParts {
    pub json: Vec<u8>,
    pub middle: Vec<u8>,
    pub payload: Vec<u8>,
}

fn copy_range(v: &Vec<u8>, lo: usize, hi: usize) -> (r: Vec<u8>)
    requires
        lo <= hi <= v@.len(),
    ensures
        r@ == v@.subrange(lo as int, hi as int),
{
    let mut r: Vec<u8> = Vec::new();
    let mut i: usize = lo;
    while i < hi
        invariant
            lo <= i <= hi <= v@.len(),
            r@ == v@.subrange(lo as int, i as int),
        decreases hi - i,
    {
        r.push(v[i]);
        assert(r@ =~= v@.subrange(lo as int, i + 1));
        i += 1;
    }
    r
}

/// Index of the first delimiter at or after `start`, or `v.len()` if none.
fn find_delimiter(v: &Vec<u8>, start: usize) -> (r: usize)
    requires
        start <= v@.len(),
    ensures
        start <= r <= v@.len(),
        r < v@.len() ==> v@[r as int] == DELIMITER,
        forall|k: int| start <= k < r ==> v@[k] != DELIMITER,
{
    let mut i: usize = start;
    while i < v.len()
        invariant
            start <= i <= v@.len(),
            forall|k: int| start <= k < i ==> v@[k] != DELIMITER,
        decreases v@.len() - i,
    {
        if v[i] == DELIMITER {
            return i;
        }
        i += 1;
    }
    i
}

/// Splits a frame at its first two delimiters; later delimiters stay in the
/// payload.
pub fn split_frame(frame: &Vec<u8>) -> (r: Result<FrameParts, FrameError>)
    ensures
        r.is_ok() <==> delimiter_count(frame@) >= 2,
        match r {
            Ok(p) => is_split(frame@, p.json@, p.middle@, p.payload@),
            Err(e) => e == FrameError::FrameFormatError,
        },
{
    let n = frame.len();
    let i = find_delimiter(frame, 0);
    if i == n {
        proof {
            assert(!frame@.contains(DELIMITER));
            lemma_count_free(frame@);
        }
        return Err(FrameError::FrameFormatError);
    }
    let j = find_delimiter(frame, i + 1);
    if j == n {
        proof {
            let a = frame@.subrange(0, i as int);
            let b = frame@.subrange(i as int, n as int);
            let c = frame@.subrange(i + 1, n as int);
            assert(frame@ =~= a + b);
            assert(b =~= seq![DELIMITER] + c);
            assert(!a.contains(DELIMITER));
            assert(!c.contains(DELIMITER));
            lemma_count_add(a, b);
            lemma_count_add(seq![DELIMITER], c);
            lemma_count_free(a);
            lemma_count_free(c);
            lemma_count_one();
        }
        return Err(FrameError::FrameFormatError);
    }
    let json = copy_range(frame, 0, i);
    let middle = copy_range(frame, i + 1, j);
    let payload = copy_range(frame, j + 1, n);
    proof {
        assert(!json@.contains(DELIMITER));
        assert(!middle@.contains(DELIMITER));
        assert(frame@ =~= json@ + seq![DELIMITER] + middle@ + seq![DELIMITER] + payload@);
        lemma_count_split(frame@, json@, middle@, payload@);
    }
    Ok(FrameParts { json, middle, payload })
}

/// Encodes a frame: the JSON segment, two delimiters, then the payload.
pub fn encode_frame(json: &Vec<u8>, payload: &Vec<u8>) -> (r: Vec<u8>)
    requires
        json@.len() + payload@.len() + 2 <= usize::MAX,
    ensures
        r@ == frame_bytes(json@, payload@),
{
    let mut r: Vec<u8> = Vec::new();
    let mut i: usize = 0;
    while i < json.len()
        invariant
            i <= json@.len(),
            r@ == json@.subrange(0, i as int),
        decreases json@.len() - i,
    {
        r.push(json[i]);
        assert(r@ =~= json@.subrange(0, i + 1));
        i += 1;
    }
    r.push(DELIMITER);
    r.push(DELIMITER);
    let ghost head = r@;
    assert(head =~= json@ + seq![DELIMITER, DELIMITER]);
    let mut k: usize = 0;
    while k < payload.len()
        invariant
            k <= payload@.len(),
            head == json@ + seq![DELIMITER, DELIMITER],
            r@ == head + payload@.subrange(0, k as int),
        decreases payload@.len() - k,
    {
        r.push(payload[k]);
        assert(r@ =~= head + payload@.subrange(0, k + 1));
        k += 1;
    }
    assert(payload@.subrange(0, payload@.len() as int) =~= payload@);
    r
}

/// What the UTF-8 decoder makes of some bytes: the text, or nothing where
/// they are not valid UTF-8.
pub uninterp spec fn utf8_text(b: Seq<u8>) -> Option<Seq<char>>;

/// Relies on utf8::decode: it returns the whole input as text when the input
/// is valid UTF-8 (it is `str::from_utf8` then), an error otherwise; the
/// outcome depends on the bytes alone.
#[verifier::external_body]
fn decode_utf8(b: &[u8]) -> (r: Option<String>)
    ensures
        match r {
            Some(s) => utf8_text(b@) == Some(s@),
            None => utf8_text(b@) is None,
        },
{
    match utf8::decode(b) {
        Ok(s) => Some(s.to_string()),
        Err(_) => None,
    }
}

/// A frame split into segments, with its JSON segment read as text.
pub struct DecodedFrame {
    pub json_text: String,
    pub parts: FrameParts,
}

/// Splits a frame and reads its JSON segment as UTF-8 text.
pub fn decode_frame_text(frame: &Vec<u8>) -> (r: Result<DecodedFrame, FrameError>)
    ensures
        match r {
            Ok(d) => {
                &&& is_split(frame@, d.parts.json@, d.parts.middle@, d.parts.payload@)
                &&& utf8_text(d.parts.json@) == Some(d.json_text@)
            },
            Err(FrameError::FrameFormatError) => delimiter_count(frame@) < 2,
            Err(FrameError::PayloadDecodeError) => {
                &&& delimiter_count(frame@) >= 2
                &&& forall|j: Seq<u8>, m: Seq<u8>, p: Seq<u8>|
                    #[trigger] is_split(frame@, j, m, p) ==> utf8_text(j) is None
            },
        },
{
    let parts = match split_frame(frame) {
        Ok(p) => p,
        Err(e) => {
            return Err(e);
        },
    };
    match decode_utf8(parts.json.as_slice()) {
        Some(json_text) => Ok(DecodedFrame { json_text, parts }),
        None => {
            proof {
                assert forall|j: Seq<u8>, m: Seq<u8>, p: Seq<u8>|
                    #[trigger] is_split(frame@, j, m, p) implies utf8_text(j) is None by {
                    lemma_split_unique(frame@, j, m, p, parts.json@, parts.middle@, parts.payload@);
                }
            }
            Err(FrameError::PayloadDecodeError)
        },
    }
}

} // verus!
