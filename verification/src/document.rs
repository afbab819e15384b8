//! The source-map document: the sorted token table, the `sources` and
//! `names` string tables, the optional per-source contents, and the
//! position-lookup algorithm over them.

use vstd::prelude::*;

verus! {

/// Sentinel index meaning "no source" or "no name" on a token.
pub const NO_ID: u32 = 0xFFFF_FFFF;

/// One mapping entry: a generated position and the original position it
/// came from. `source_id` and `name_id` are `NO_ID` when absent.
#[derive(Clone, Copy, PartialEq, Eq, Structural, Debug)]
pub struct Token {
    pub gen_line: u32,
    pub gen_col: u32,
    pub source_id: u32,
    pub orig_line: u32,
    pub orig_col: u32,
    pub name_id: u32,
}

/// `a` and `b` share a generated position.
pub open spec fn same_key(a: Token, b: Token) -> bool {
    a.gen_line == b.gen_line && a.gen_col == b.gen_col
}

/// Strict order on generated positions.
pub open spec fn key_lt(a: Token, b: Token) -> bool {
    a.gen_line < b.gen_line || (a.gen_line == b.gen_line && a.gen_col < b.gen_col)
}

/// Non-strict order on generated positions.
pub open spec fn key_le(a: Token, b: Token) -> bool {
    key_lt(a, b) || same_key(a, b)
}

/// The token's generated position does not exceed the queried one.
pub open spec fn tok_le_query(t: Token, line: u32, col: u32) -> bool {
    t.gen_line < line || (t.gen_line == line && t.gen_col <= col)
}

/// The mathematical value of a document: what the decoders produce and the
/// codecs and lookup are specified over.
pub ghost struct DocModel {
    pub tokens: Seq<Token>,
    pub sources: Seq<Seq<u8>>,
    pub names: Seq<Seq<u8>>,
    pub contents: Seq<Option<Seq<u8>>>,
}

/// Tokens stand in non-decreasing generated-position order.
pub open spec fn sorted_tokens(ts: Seq<Token>) -> bool {
    forall|i: int, j: int| 0 <= i < j < ts.len() ==> key_le(ts[i], ts[j])
}

/// A token's index fields point into the document's tables, or are absent.
pub open spec fn token_ids_wf(t: Token, n_sources: int, n_names: int) -> bool {
    &&& (t.source_id == NO_ID || t.source_id < n_sources)
    &&& (t.name_id == NO_ID || t.name_id < n_names)
}

/// Well-formedness of a document: sorted tokens, index fields in range, one
/// content slot per source, and every count and string small enough for the
/// fixed-width binary form.
pub open spec fn doc_wf(m: DocModel) -> bool {
    &&& sorted_tokens(m.tokens)
    &&& forall|i: int|
        0 <= i < m.tokens.len() ==> token_ids_wf(
            #[trigger] m.tokens[i],
            m.sources.len() as int,
            m.names.len() as int,
        )
    &&& m.contents.len() == m.sources.len()
    &&& m.tokens.len() <= 0xFFFF_FFFF
    &&& m.sources.len() < 0xFFFF_FFFF
    &&& m.names.len() < 0xFFFF_FFFF
    &&& forall|i: int| 0 <= i < m.sources.len() ==> (#[trigger] m.sources[i]).len() <= 0xFFFF_FFFF
    &&& forall|i: int| 0 <= i < m.names.len() ==> (#[trigger] m.names[i]).len() <= 0xFFFF_FFFF
    &&& forall|i: int|
        0 <= i < m.contents.len() ==> ((#[trigger] m.contents[i]) matches Some(c) ==> c.len()
            <= 0xFFFF_FFFF)
}

/// The last index below `n` whose token's position does not exceed the
/// query, scanning from the end; the lookup's candidate.
pub open spec fn last_le(m: DocModel, line: u32, col: u32, n: int) -> Option<int>
    decreases n,
{
    if n <= 0 || n > m.tokens.len() {
        None
    } else if tok_le_query(m.tokens[n - 1], line, col) {
        Some(n - 1)
    } else {
        last_le(m, line, col, n - 1)
    }
}

/// The first index of the run of tokens sharing `c`'s generated position.
pub open spec fn run_start(m: DocModel, c: int) -> int
    decreases c,
{
    if 0 < c < m.tokens.len() && same_key(m.tokens[c - 1], m.tokens[c]) {
        run_start(m, c - 1)
    } else {
        c
    }
}

/// The index of the token a lookup reports: the first token of the run of
/// the greatest generated position not exceeding the query.
pub open spec fn spec_match_index(m: DocModel, line: u32, col: u32) -> Option<int> {
    match last_le(m, line, col, m.tokens.len() as int) {
        None => None,
        Some(c) => Some(run_start(m, c)),
    }
}

/// What one successful lookup reports.
pub struct TokenMatch {
    /// Original line of the matched token.
    pub line: u32,
    /// Original column of the matched token.
    pub col: u32,
    /// The referenced name, absent when the token carries none.
    pub name: Option<Vec<u8>>,
    /// The referenced source path.
    pub src: Vec<u8>,
    /// Index of the source path in the document's source table.
    pub src_id: u32,
}

/// The match a lookup owes on a document, `None` when no token's position
/// precedes the query or the matched token has no source association.
pub open spec fn spec_lookup(m: DocModel, line: u32, col: u32) -> Option<(Token, Seq<u8>)> {
    match spec_match_index(m, line, col) {
        None => None,
        Some(f) => {
            let t = m.tokens[f];
            if t.source_id == NO_ID {
                None
            } else {
                Some((t, m.sources[t.source_id as int]))
            }
        },
    }
}

/// The reported match carries the matched token's original position, ids
/// and source path.
pub open spec fn token_match_of(tm: TokenMatch, t: Token, src: Seq<u8>, names: Seq<Seq<u8>>) -> bool {
    &&& tm.line == t.orig_line
    &&& tm.col == t.orig_col
    &&& tm.src_id == t.source_id
    &&& tm.src@ == src
    &&& match tm.name {
        None => t.name_id == NO_ID,
        Some(n) => t.name_id != NO_ID && t.name_id < names.len() && n@ == names[t.name_id as int],
    }
}

/// Nearest-preceding semantics on a line: a lookup at a column at or past
/// the last token on a generated line matches that token's run, however
/// large the column.
pub proof fn lemma_lookup_past_last_on_line(m: DocModel, i: int, line: u32, col: u32)
    requires
        doc_wf(m),
        0 <= i < m.tokens.len(),
        m.tokens[i].gen_line == line,
        m.tokens[i].gen_col <= col,
        i + 1 == m.tokens.len() || m.tokens[i + 1].gen_line > line,
    ensures
        spec_match_index(m, line, col) == Some(run_start(m, i)),
{
    let n = m.tokens.len() as int;
    assert(tok_le_query(m.tokens[i], line, col));
    assert forall|k: int| i < k < n implies !tok_le_query(#[trigger] m.tokens[k], line, col) by {
        assert(key_le(m.tokens[i + 1], m.tokens[k]) || k == i + 1);
    }
    lemma_last_le(m, line, col, n);
    match last_le(m, line, col, n) {
        None => {
            assert(!tok_le_query(m.tokens[i], line, col));
        },
        Some(c) => {
            if c < i {
                assert(!tok_le_query(m.tokens[i], line, col));
            }
            if c > i {
                assert(!tok_le_query(m.tokens[c], line, col));
            }
            assert(c == i);
        },
    }
}

/// A lookup at a position before every token matches nothing.
pub proof fn lemma_lookup_before_first(m: DocModel, line: u32, col: u32)
    requires
        doc_wf(m),
        m.tokens.len() == 0 || !tok_le_query(m.tokens[0], line, col),
    ensures
        spec_match_index(m, line, col) is None,
{
    let n = m.tokens.len() as int;
    assert forall|k: int| 0 <= k < n implies !tok_le_query(#[trigger] m.tokens[k], line, col) by {
        assert(key_le(m.tokens[0], m.tokens[k]) || k == 0);
    }
    lemma_last_le(m, line, col, n);
    match last_le(m, line, col, n) {
        None => {},
        Some(c) => {
            assert(!tok_le_query(m.tokens[c], line, col));
        },
    }
}

/// The in-memory document. Immutable once built by a decoder.
pub struct SourceMap {
    pub tokens: Vec<Token>,
    pub sources: Vec<Vec<u8>>,
    pub names: Vec<Vec<u8>>,
    pub contents: Vec<Option<Vec<u8>>>,
}

/// The byte string a stored string stands for.
pub open spec fn bytes_view() -> spec_fn(Vec<u8>) -> Seq<u8> {
    |v: Vec<u8>| v@
}

/// The content a stored slot stands for.
pub open spec fn slot_view() -> spec_fn(Option<Vec<u8>>) -> Option<Seq<u8>> {
    |o: Option<Vec<u8>>|
        match o {
            Some(v) => Some(v@),
            None => None,
        }
}

impl View for SourceMap {
    type V = DocModel;

    open spec fn view(&self) -> DocModel {
        DocModel {
            tokens: self.tokens@,
            sources: self.sources@.map_values(bytes_view()),
            names: self.names@.map_values(bytes_view()),
            contents: self.contents@.map_values(slot_view()),
        }
    }
}

/// A byte-for-byte copy of `v`.
pub fn copy_bytes(v: &Vec<u8>) -> (r: Vec<u8>)
    ensures
        r@ == v@,
{
    let mut out: Vec<u8> = Vec::new();
    let mut i: usize = 0;
    while i < v.len()
        invariant
            i <= v@.len(),
            out@ == v@.subrange(0, i as int),
        decreases v@.len() - i,
    {
        out.push(v[i]);
        proof {
            assert(out@ =~= v@.subrange(0, i as int + 1));
        }
        i = i + 1;
    }
    proof {
        assert(out@ =~= v@);
    }
    out
}

/// The properties of the scan `last_le`: its answer is the last index whose
/// token precedes the query.
pub proof fn lemma_last_le(m: DocModel, line: u32, col: u32, n: int)
    requires
        n <= m.tokens.len(),
    ensures
        match last_le(m, line, col, n) {
            None => forall|k: int| 0 <= k < n ==> !tok_le_query(#[trigger] m.tokens[k], line, col),
            Some(c) => 0 <= c < n && tok_le_query(m.tokens[c], line, col) && forall|k: int|
                c < k < n ==> !tok_le_query(#[trigger] m.tokens[k], line, col),
        },
    decreases n,
{
    if n > 0 {
        if !tok_le_query(m.tokens[n - 1], line, col) {
            lemma_last_le(m, line, col, n - 1);
        }
    }
}

/// The properties of `run_start`: it lands on the first token of `c`'s run.
pub proof fn lemma_run_start(m: DocModel, c: int)
    requires
        0 <= c < m.tokens.len(),
    ensures
        ({
            let f = run_start(m, c);
            &&& 0 <= f <= c
            &&& same_key(m.tokens[f], m.tokens[c])
            &&& (f == 0 || !same_key(m.tokens[f - 1], m.tokens[c]))
        }),
    decreases c,
{
    if 0 < c && same_key(m.tokens[c - 1], m.tokens[c]) {
        lemma_run_start(m, c - 1);
    }
}

impl SourceMap {
    /// Looks up the token for a generated position: the first token of the
    /// run of the greatest generated position not past `(line, col)`.
    pub fn lookup(&self, line: u32, col: u32) -> (r: Option<TokenMatch>)
        requires
            doc_wf(self@),
        ensures
            match r {
                None => spec_lookup(self@, line, col) is None,
                Some(tm) => spec_lookup(self@, line, col) matches Some((t, src))
                    && token_match_of(tm, t, src, self@.names),
            },
    {
        let ghost m = self@;
        let n = self.tokens.len();
        proof {
            lemma_last_le(m, line, col, n as int);
        }
        let mut lo: usize = 0;
        let mut hi: usize = n;
        while lo < hi
            invariant
                lo <= hi <= n == m.tokens.len(),
                doc_wf(m),
                m == self@,
                forall|k: int| 0 <= k < lo ==> tok_le_query(#[trigger] m.tokens[k], line, col),
                forall|k: int| hi <= k < n ==> !tok_le_query(#[trigger] m.tokens[k], line, col),
            decreases hi - lo,
        {
            let mid = lo + (hi - lo) / 2;
            let t = self.tokens[mid];
            if t.gen_line < line || (t.gen_line == line && t.gen_col <= col) {
                proof {
                    assert(tok_le_query(m.tokens[mid as int], line, col));
                    assert forall|k: int| 0 <= k < mid + 1 implies tok_le_query(
                        #[trigger] m.tokens[k],
                        line,
                        col,
                    ) by {
                        assert(key_le(m.tokens[k], m.tokens[mid as int]) || k == mid);
                    }
                }
                lo = mid + 1;
            } else {
                proof {
                    assert forall|k: int| mid <= k < n implies !tok_le_query(
                        #[trigger] m.tokens[k],
                        line,
                        col,
                    ) by {
                        if k > mid {
                            assert(key_le(m.tokens[mid as int], m.tokens[k]));
                        }
                    }
                }
                hi = mid;
            }
        }
        if lo == 0 {
            proof {
                assert(last_le(m, line, col, n as int) is None) by {
                    if last_le(m, line, col, n as int) matches Some(c) {
                        lemma_last_le(m, line, col, n as int);
                    }
                }
            }
            return None;
        }
        let c = lo - 1;
        proof {
            assert(last_le(m, line, col, n as int) == Some(c as int)) by {
                lemma_last_le(m, line, col, n as int);
                match last_le(m, line, col, n as int) {
                    None => {
                        assert(!tok_le_query(m.tokens[c as int], line, col));
                    },
                    Some(c2) => {
                        if c2 < c as int {
                            assert(tok_le_query(m.tokens[c as int], line, col));
                        }
                        if c2 > c as int {
                            assert(!tok_le_query(m.tokens[c2], line, col));
                        }
                    },
                }
            }
        }
        // walk back to the first token of the run of equal generated
        // positions: the earliest of several tokens on one position wins
        let mut f: usize = c;
        proof {
            lemma_run_start(m, c as int);
        }
        while f > 0 && self.tokens[f - 1].gen_line == self.tokens[f].gen_line && self.tokens[f
            - 1].gen_col == self.tokens[f].gen_col
            invariant
                0 <= f <= c < n == m.tokens.len(),
                m == self@,
                doc_wf(m),
                run_start(m, c as int) == run_start(m, f as int),
                same_key(m.tokens[f as int], m.tokens[c as int]),
            decreases f,
        {
            proof {
                assert(same_key(m.tokens[f - 1], m.tokens[f as int]));
            }
            f = f - 1;
        }
        proof {
            assert(run_start(m, f as int) == f as int);
            assert(spec_match_index(m, line, col) == Some(f as int));
        }
        let t = self.tokens[f];
        if t.source_id == NO_ID {
            return None;
        }
        proof {
            assert(token_ids_wf(m.tokens[f as int], m.sources.len() as int, m.names.len() as int));
            assert(m.sources[t.source_id as int] == self.sources@[t.source_id as int]@);
        }
        let src = copy_bytes(&self.sources[t.source_id as usize]);
        let name: Option<Vec<u8>> = if t.name_id != NO_ID {
            proof {
                assert(m.names[t.name_id as int] == self.names@[t.name_id as int]@);
            }
            Some(copy_bytes(&self.names[t.name_id as usize]))
        } else {
            None
        };
        Some(TokenMatch { line: t.orig_line, col: t.orig_col, name, src, src_id: t.source_id })
    }

    /// The content slot of a source index: `None` when the index is out of
    /// range or the slot holds no content, the exact original bytes else.
    pub fn get_source_contents(&self, src_id: u32) -> (r: Option<&Vec<u8>>)
        ensures
            match r {
                None => src_id >= self@.contents.len() || self@.contents[src_id as int] is None,
                Some(v) => src_id < self@.contents.len() && self@.contents[src_id as int] == Some(
                    v@,
                ),
            },
    {
        if (src_id as usize) < self.contents.len() {
            match &self.contents[src_id as usize] {
                Some(v) => Some(v),
                None => None,
            }
        } else {
            None
        }
    }
}

} // verus!
