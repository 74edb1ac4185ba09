//! Compiled templates memoized by their exact source text.
use vstd::prelude::*;
use crate::lexer::ParseError;
use crate::sync_map::SyncMap;
use crate::template::{compile, nodes_view, template_of, CompiledTemplate, TNodeV};

verus! {

/// Compiled templates keyed by source text. Entries are never evicted.
pub struct TemplateCache {
    map: SyncMap<CompiledTemplate>,
}

/// One call of `compile_and_cache` on `src`: a cached template is returned
/// as it is and the cache is left alone; otherwise a successful compile is
/// stored under `src` alone, and a failed one stores nothing. Either way the
/// template returned is the compiled structure of `src`.
pub open spec fn compile_step(
    before: TemplateCache,
    after: TemplateCache,
    src: Seq<char>,
    r: Result<CompiledTemplate, ParseError>,
) -> bool {
    &&& after.wf()
    &&& match template_of(src) {
        Ok(v) => r matches Ok(t) && nodes_view(t.nodes) == v,
        Err(x) => r == Err::<CompiledTemplate, ParseError>(x),
    }
    &&& match before.cached(src) {
        Some(t) => r == Ok::<CompiledTemplate, ParseError>(t) && after == before,
        None => match r {
            Ok(t) => after.cached(src) == Some(t) && forall|k: Seq<char>|
                k != src ==> #[trigger] after.cached(k) == before.cached(k),
            Err(_) => after == before,
        },
    }
}

pub open spec fn deref_result(r: Result<&CompiledTemplate, ParseError>) -> Result<CompiledTemplate, ParseError> {
    match r {
        Ok(t) => Ok(*t),
        Err(e) => Err(e),
    }
}

impl TemplateCache {
    /// Every stored template is the compiled structure of its source.
    pub closed spec fn wf(&self) -> bool {
        &&& self.map.wf()
        &&& forall|k: Seq<char>| #[trigger] self.map.lookup(k) matches Some(t) ==> template_of(k) == Ok::<
            Seq<TNodeV>,
            ParseError,
        >(nodes_view(t.nodes))
    }

    /// The template stored for `src`.
    pub closed spec fn cached(&self, src: Seq<char>) -> Option<CompiledTemplate> {
        self.map.lookup(src)
    }

    pub fn new() -> (r: TemplateCache)
        ensures
            r.wf(),
            forall|src: Seq<char>| #[trigger] r.cached(src) is None,
    {
        TemplateCache { map: SyncMap::new() }
    }

    /// The compiled template of `source`, compiled and stored on first use.
    pub fn compile_and_cache(&mut self, source: &str) -> (r: Result<&CompiledTemplate, ParseError>)
        requires
            old(self).wf(),
        ensures
            compile_step(*old(self), *final(self), source@, deref_result(r)),
    {
        if self.map.get(source).is_some() {
            return Ok(self.map.get(source).unwrap());
        }
        match compile(source) {
            Err(e) => Err(e),
            Ok(t) => {
                self.map.put(source, t);
                match self.map.get(source) {
                    Some(t) => Ok(t),
                    None => {
                        assert(false);
                        Err(ParseError::Empty)
                    },
                }
            },
        }
    }
}

/// Compiling one source twice stores it once: the second call returns the
/// template of the first, which is the compiled structure of the source, and
/// leaves the cache as the first call left it.
pub proof fn lemma_compile_once(
    c0: TemplateCache,
    c1: TemplateCache,
    c2: TemplateCache,
    src: Seq<char>,
    r1: Result<CompiledTemplate, ParseError>,
    r2: Result<CompiledTemplate, ParseError>,
)
    requires
        c0.wf(),
        compile_step(c0, c1, src, r1),
        compile_step(c1, c2, src, r2),
        r1 is Ok,
    ensures
        r2 == r1,
        c2 == c1,
        c2.cached(src) == Some(r1->Ok_0),
        template_of(src) == Ok::<Seq<TNodeV>, ParseError>(nodes_view(r2->Ok_0.nodes)),
{
}

} // verus!
