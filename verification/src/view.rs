//! The public facade: one loaded source-map document, from JSON or from
//! memdb, with position lookup, source-content retrieval and memdb export.

use vstd::prelude::*;

use crate::document::{doc_wf, spec_lookup, token_match_of, DocModel, SourceMap, TokenMatch};
use crate::errors::Error;
use crate::json;
use crate::memdb;
use crate::sort;

verus! {

/// One loaded document. Immutable once constructed; every operation but
/// construction is a pure read.
pub struct SourceMapView {
    doc: SourceMap,
}

impl SourceMapView {
    /// A view always holds a well-formed document.
    #[verifier::type_invariant]
    pub closed spec fn wf(self) -> bool {
        doc_wf(self.doc@)
    }

    /// The document the view owns.
    pub closed spec fn model(self) -> DocModel {
        self.doc@
    }

    /// Loads a view from JSON source-map text.
    pub fn json_from_slice(bytes: &Vec<u8>) -> (r: Result<SourceMapView, Error>)
        ensures
            match r {
                Ok(v) => (match json::spec_decode_json(bytes@) {
                    Ok((raw, pre)) => {
                        &&& v.model().sources == raw.sources
                        &&& v.model().names == raw.names
                        &&& v.model().contents == json::spec_json_contents(raw)
                        &&& sort::stable_sorted(pre, v.model().tokens)
                        &&& doc_wf(v.model())
                    },
                    Err(_) => false,
                }),
                Err(e) => json::spec_decode_json(bytes@) == Err::<
                    (json::RawModel, Seq<crate::document::Token>),
                    Error,
                >(e),
            },
    {
        match json::parse(bytes) {
            Ok(doc) => Ok(SourceMapView { doc }),
            Err(e) => Err(e),
        }
    }

    /// Loads a view from a memdb buffer.
    pub fn memdb_from_vec(bytes: Vec<u8>) -> (r: Result<SourceMapView, Error>)
        ensures
            match r {
                Ok(v) => memdb::spec_memdb_decode(bytes@) == Ok::<DocModel, Error>(v.model())
                    && doc_wf(v.model()),
                Err(e) => memdb::spec_memdb_decode(bytes@) == Err::<DocModel, Error>(e),
            },
    {
        match memdb::decode(&bytes) {
            Ok(doc) => Ok(SourceMapView { doc }),
            Err(e) => Err(e),
        }
    }

    /// The match for a generated position: the first token of the run of
    /// the greatest generated position not past `(line, col)`; `None` when
    /// no token precedes the query or the matched token has no source.
    pub fn lookup_token(&self, line: u32, col: u32) -> (r: Option<TokenMatch>)
        ensures
            match r {
                None => spec_lookup(self.model(), line, col) is None,
                Some(tm) => spec_lookup(self.model(), line, col) matches Some((t, src))
                    && token_match_of(tm, t, src, self.model().names),
            },
    {
        proof {
            use_type_invariant(self);
        }
        self.doc.lookup(line, col)
    }

    /// The content slot of a source index: `None` when the index is out of
    /// range or the slot holds no content, the exact original bytes else.
    pub fn get_source_contents(&self, src_id: u32) -> (r: Option<&Vec<u8>>)
        ensures
            match r {
                None => src_id >= self.model().contents.len() || self.model().contents[
                    src_id as int] is None,
                Some(v) => src_id < self.model().contents.len() && self.model().contents[
                    src_id as int] == Some(v@),
            },
    {
        self.doc.get_source_contents(src_id)
    }

    /// The memdb byte form of the owned document; always succeeds, and is
    /// deterministic: one document, one byte string.
    pub fn dump_memdb(&self) -> (r: Vec<u8>)
        ensures
            r@ == memdb::spec_memdb_encode(self.model()),
    {
        proof {
            use_type_invariant(self);
        }
        self.doc.encode_memdb()
    }
}

/// The round-trip law across representations: any document the JSON
/// decoder yields — its sorted tokens, sources, names and contents —
/// survives a memdb dump and reload unchanged.
pub proof fn lemma_json_memdb_round_trip(
    bytes: Seq<u8>,
    raw: json::RawModel,
    pre: Seq<crate::document::Token>,
    m: DocModel,
)
    requires
        json::spec_decode_json(bytes) == Ok::<(json::RawModel, Seq<crate::document::Token>), Error>(
            (raw, pre),
        ),
        m.sources == raw.sources,
        m.names == raw.names,
        m.contents == json::spec_json_contents(raw),
        sort::stable_sorted(pre, m.tokens),
    ensures
        memdb::spec_memdb_decode(memdb::spec_memdb_encode(m)) == Ok::<DocModel, Error>(m),
{
    // a document with these parts is well-formed: the sort gives the
    // order, the decoder's validation gives the index and size bounds
    assert(json::json_counts_ok(raw, pre) && json::json_ids_ok(raw, pre));
    let p = choose|p: Seq<int>| sort::stable_perm(pre, m.tokens, p);
    assert(sort::stable_perm(pre, m.tokens, p));
    assert forall|k: int|
        0 <= k < m.tokens.len() implies crate::document::token_ids_wf(
        #[trigger] m.tokens[k],
        m.sources.len() as int,
        m.names.len() as int,
    ) by {
        assert(m.tokens[k] == pre[p[k]]);
        assert(crate::document::token_ids_wf(pre[p[k]], raw.sources.len() as int,
            raw.names.len() as int));
    }
    assert(doc_wf(m));
    memdb::lemma_memdb_round_trip(m);
}

} // verus!
