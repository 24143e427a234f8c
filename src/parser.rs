//! Reading the header block of a request on its own: the header lines up to the first blank
//! line, each as a name and a value.
use vstd::prelude::*;
use crate::http::{find_end_of_head, header_lines, message_parts};

verus! {

/// Each name and value is the bytes its span gives.
pub open spec fn pairs_match(
    b: Seq<u8>,
    hs: Seq<(&[u8], &[u8])>,
    spans: Seq<(int, int, int, int)>,
) -> bool {
    &&& hs.len() == spans.len()
    &&& forall|i: int|
        0 <= i < spans.len() ==> (#[trigger] hs[i]).0@ == b.subrange(spans[i].0, spans[i].1)
            && hs[i].1@ == b.subrange(spans[i].2, spans[i].3)
}

/// Reads the header lines that come before the first `\r\n\r\n` of `buffer`; the rest starts
/// with that `\r\n\r\n`.
pub fn read_headers(buffer: &[u8]) -> (r: Result<(&[u8], Vec<(&[u8], &[u8])>), ()>)
    ensures
        match r {
            Ok((rest, hs)) => exists|k: int|
                {
                    &&& #[trigger] message_parts(buffer@, k)
                    &&& rest@ == buffer@.subrange(k, buffer@.len() as int)
                    &&& header_lines(buffer@.take(k), 0) is Some
                    &&& pairs_match(buffer@, hs@, header_lines(buffer@.take(k), 0).unwrap())
                },
            Err(_) => forall|k: int|
                #[trigger] message_parts(buffer@, k) ==> header_lines(buffer@.take(k), 0) is None,
        },
{
    let n = buffer.len();
    let k = match find_end_of_head(buffer) {
        Some(k) => k,
        None => return Err(()),
    };
    assert(message_parts(buffer@, k as int));
    proof {
        assert forall|j: int| #[trigger] message_parts(buffer@, j) implies j == k by {
            if j < k {
                assert(!crate::http::has_at(buffer@, j, crate::http::end_of_head()));
            } else if j > k {
            }
        }
    }
    let head = &buffer[0..k];
    assert(head@ =~= buffer@.take(k as int));
    let (_, headers) = match crate::http::read_headers(head) {
        Ok(x) => x,
        Err(_) => return Err(()),
    };
    let mut pairs: Vec<(&[u8], &[u8])> = Vec::new();
    let mut i: usize = 0;
    while i < headers.len()
        invariant
            i <= headers@.len(),
            pairs@.len() == i,
            forall|j: int|
                0 <= j < i ==> (#[trigger] pairs@[j]).0@ == headers@[j].name@ && pairs@[j].1@
                    == headers@[j].value@,
        decreases headers.len() - i,
    {
        pairs.push((headers[i].name, headers[i].value));
        i = i + 1;
    }
    proof {
        let spans = header_lines(head@, 0).unwrap();
        assert forall|j: int| 0 <= j < spans.len() implies (#[trigger] pairs@[j]).0@ == buffer@.subrange(
            spans[j].0,
            spans[j].1,
        ) && pairs@[j].1@ == buffer@.subrange(spans[j].2, spans[j].3) by {
            assert(crate::http::header_matches(head@, headers@[j], spans[j]));
            lemma_header_spans_in_head(head@, 0, j);
            assert(head@.subrange(spans[j].0, spans[j].1) =~= buffer@.subrange(spans[j].0, spans[j].1));
            assert(head@.subrange(spans[j].2, spans[j].3) =~= buffer@.subrange(spans[j].2, spans[j].3));
        }
    }
    Ok((&buffer[k..n], pairs))
}

/// The spans that header lines report lie inside the bytes they were read from.
proof fn lemma_header_spans_in_head(b: Seq<u8>, pos: int, j: int)
    requires
        0 <= pos,
        header_lines(b, pos) is Some,
        0 <= j < header_lines(b, pos).unwrap().len(),
    ensures
        ({
            let s = header_lines(b, pos).unwrap()[j];
            0 <= s.0 <= s.1 <= s.2 <= s.3 <= b.len()
        }),
    decreases b.len() - pos,
{
    crate::http::lemma_header_line_bounds(b, pos);
    if pos < b.len() {
        let (ne, vs, ve, e) = crate::http::header_line_at(b, pos).unwrap();
        if j > 0 {
            lemma_header_spans_in_head(b, e, j - 1);
        }
    }
}

} // verus!
