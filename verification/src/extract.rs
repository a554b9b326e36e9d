//! Text extraction: turning a structured document into plain text.
//!
//! The document's markup is read by the XML reader; the character data of
//! the document, in order, joined with a space after each chunk, is the
//! plain text handed to the indexer.  A document the reader cannot parse is
//! an extraction failure, which the index builder skips and reports.

use vstd::prelude::*;

use crate::ExtractionError;

verus! {

/// The character-data chunks the XML reader yields for a document, in
/// order: a function of the bytes alone.
pub uninterp spec fn xml_chunks_of(bytes: Seq<u8>) -> Seq<Seq<char>>;

/// Whether the XML reader accepts the document: a function of the bytes
/// alone, since the reader runs under its constant default configuration.
pub uninterp spec fn xml_ok(bytes: Seq<u8>) -> bool;

/// Relies on xml::reader::EventReader: under its constant default
/// configuration, whether a byte slice parses, and which character-data
/// chunks it yields when it does, are functions of the bytes alone; it
/// succeeds exactly on the documents it accepts and reports the rest as
/// malformed.
#[verifier::external_body]
fn xml_characters(bytes: &[u8]) -> (r: Result<Vec<String>, ExtractionError>)
    ensures
        r is Ok <==> xml_ok(bytes@),
        r matches Ok(v) ==> v.deep_view() == xml_chunks_of(bytes@),
{
    let mut out: Vec<String> = Vec::new();
    for event in xml::reader::EventReader::new(bytes) {
        match event {
            Ok(xml::reader::XmlEvent::Characters(text)) => out.push(text),
            Ok(_) => {},
            Err(_) => {
                return Err(ExtractionError);
            },
        }
    }
    Ok(out)
}

/// The chunks joined, one space after each chunk.
pub open spec fn joined_chunks(cs: Seq<Seq<char>>) -> Seq<char>
    decreases cs.len(),
{
    if cs.len() == 0 {
        Seq::empty()
    } else {
        cs[0] + seq![' '] + joined_chunks(cs.drop_first())
    }
}

proof fn lemma_joined_split(cs: Seq<Seq<char>>, i: int)
    requires
        0 <= i <= cs.len(),
    ensures
        joined_chunks(cs) == joined_chunks(cs.take(i)) + joined_chunks(cs.skip(i)),
    decreases i,
{
    if i == 0 {
        assert(cs.take(0) =~= Seq::<Seq<char>>::empty());
        assert(cs.skip(0) =~= cs);
        assert(joined_chunks(cs) =~= joined_chunks(cs.take(0)) + joined_chunks(cs.skip(0)));
    } else {
        lemma_joined_split(cs.drop_first(), i - 1);
        assert(cs.take(i).drop_first() =~= cs.drop_first().take(i - 1));
        assert(cs.skip(i) =~= cs.drop_first().skip(i - 1));
        assert(cs.take(i)[0] == cs[0]);
        assert(joined_chunks(cs.take(i)) == cs[0] + seq![' '] + joined_chunks(
            cs.drop_first().take(i - 1),
        ));
        assert(joined_chunks(cs) =~= joined_chunks(cs.take(i)) + joined_chunks(cs.skip(i)));
    }
}

/// Joins the chunks into one character buffer, a space after each chunk.
fn join_chunks(chunks: &Vec<String>) -> (r: Vec<char>)
    ensures
        r@ == joined_chunks(chunks.deep_view()),
{
    let ghost cv = chunks.deep_view();
    let mut out: Vec<char> = Vec::new();
    let mut i: usize = 0;
    proof {
        assert(cv.take(0) =~= Seq::<Seq<char>>::empty());
        assert(out@ =~= joined_chunks(cv.take(0)));
    }
    while i < chunks.len()
        invariant
            i <= cv.len(),
            cv == chunks.deep_view(),
            cv.len() == chunks@.len(),
            out@ == joined_chunks(cv.take(i as int)),
        decreases cv.len() - i,
    {
        proof {
            assert(cv[i as int] == chunks@[i as int]@);
        }
        let s = chunks[i].as_str();
        let n = s.unicode_len();
        let mut j: usize = 0;
        while j < n
            invariant
                j <= n,
                n == s@.len(),
                s@ == cv[i as int],
                i < cv.len(),
                out@ == joined_chunks(cv.take(i as int)) + s@.take(j as int),
            decreases n - j,
        {
            out.push(s.get_char(j));
            proof {
                assert(out@ =~= joined_chunks(cv.take(i as int)) + s@.take(j + 1));
            }
            j = j + 1;
        }
        out.push(' ');
        proof {
            lemma_joined_split(cv.take(i + 1), i as int);
            assert(cv.take(i + 1).take(i as int) =~= cv.take(i as int));
            assert(cv.take(i + 1).skip(i as int) =~= seq![cv[i as int]]);
            assert(joined_chunks(seq![cv[i as int]]) =~= cv[i as int] + seq![' ']) by {
                assert(seq![cv[i as int]].drop_first() =~= Seq::<Seq<char>>::empty());
                assert(joined_chunks(Seq::<Seq<char>>::empty()) =~= Seq::<char>::empty());
            }
            assert(s@.take(n as int) =~= s@);
            assert(out@ =~= joined_chunks(cv.take(i + 1)));
        }
        i = i + 1;
    }
    proof {
        assert(cv.take(cv.len() as int) =~= cv);
    }
    out
}

/// Extracts the plain text of one structured document: its character data,
/// a space after each chunk.  It succeeds exactly on the documents the
/// reader accepts; malformed markup is an extraction failure.
pub fn extract_text(bytes: &[u8]) -> (r: Result<Vec<char>, ExtractionError>)
    ensures
        r is Ok <==> xml_ok(bytes@),
        r matches Ok(t) ==> t@ == joined_chunks(xml_chunks_of(bytes@)),
{
    match xml_characters(bytes) {
        Err(e) => Err(e),
        Ok(chunks) => Ok(join_chunks(&chunks)),
    }
}

} // verus!
