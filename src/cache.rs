//! The lookup cache: key/value pairs kept between runs in a flat text file.

use vstd::prelude::*;
use vstd::string::StringExecFns;
use crate::key_values::{lines_of, pairs_get, pairs_load, pairs_set, text_lines, KeyValues};
use crate::text::opt_view;

verus! {

broadcast use vstd::string::group_string_axioms;

/// The file the cache is kept in.
pub const CACHE_FILE: &'static str = "acccess_parser.cache";

/// The text a cache is kept as: one `key=value` line per pair, in order.
pub open spec fn cache_text(s: Seq<(Seq<char>, Seq<char>)>) -> Seq<char>
    decreases s.len(),
{
    if s.len() == 0 {
        Seq::empty()
    } else {
        cache_text(s.drop_last()) + s.last().0 + seq!['='] + s.last().1 + seq!['\n']
    }
}

pub struct Cache {
    path: String,
    cache: KeyValues,
}

impl View for Cache {
    type V = Seq<(Seq<char>, Seq<char>)>;

    closed spec fn view(&self) -> Seq<(Seq<char>, Seq<char>)> {
        self.cache@
    }
}

impl Cache {
    pub closed spec fn wf(&self) -> bool {
        self.cache.wf()
    }

    /// The file this cache is kept in.
    pub closed spec fn spec_path(&self) -> Seq<char> {
        self.path@
    }

    /// An empty cache, kept in the usual file.
    pub fn new() -> (r: Cache)
        ensures
            r.wf(),
            r@ == Seq::<(Seq<char>, Seq<char>)>::empty(),
            r.spec_path() == CACHE_FILE@,
    {
        Cache { path: CACHE_FILE.to_owned(), cache: KeyValues::new() }
    }

    pub fn path(&self) -> (r: &String)
        ensures
            r@ == self.spec_path(),
    {
        &self.path
    }

    pub fn set(&mut self, key: &str, value: &str)
        requires
            old(self).wf(),
        ensures
            final(self).wf(),
            final(self)@ == pairs_set(old(self)@, key@, value@),
            final(self).spec_path() == old(self).spec_path(),
    {
        self.cache.set(key, value);
    }

    pub fn get(&self, key: &str) -> (r: Option<String>)
        requires
            self.wf(),
        ensures
            opt_view(r) == pairs_get(self@, key@),
    {
        self.cache.get(key)
    }

    /// Takes in the pairs of a cache file's text: each line of the form
    /// `key=value`, split at its first `=`, sets the key; later lines win.
    pub fn load(&mut self, text: &str)
        requires
            old(self).wf(),
        ensures
            final(self).wf(),
            final(self)@ == pairs_load(old(self)@, text_lines(text@)),
            final(self).spec_path() == old(self).spec_path(),
    {
        let lines = lines_of(text);
        self.cache.load_lines(&lines);
    }

    /// The text to keep the cache as.
    pub fn to_text(&self) -> (r: String)
        requires
            self.wf(),
        ensures
            r@ == cache_text(self@),
    {
        let mut buffer = String::new();
        let mut i: usize = 0;
        proof {
            reveal_strlit("=");
            reveal_strlit("\n");
        }
        assert(self@.subrange(0, 0) =~= Seq::<(Seq<char>, Seq<char>)>::empty());
        while i < self.cache.len()
            invariant
                self.wf(),
                i <= self@.len(),
                buffer@ == cache_text(self@.subrange(0, i as int)),
            decreases self@.len() - i,
        {
            let (k, v) = self.cache.entry(i);
            let ghost sub = self@.subrange(0, i + 1);
            assert(sub.drop_last() =~= self@.subrange(0, i as int));
            let ghost before = buffer@;
            buffer.append(k.as_str());
            buffer.append("=");
            buffer.append(v.as_str());
            buffer.append("\n");
            proof {
                reveal_strlit("=");
                reveal_strlit("\n");
                assert(buffer@ =~= before + k@ + seq!['='] + v@ + seq!['\n']);
                assert(buffer@ =~= cache_text(sub));
            }
            i = i + 1;
        }
        assert(self@.subrange(0, i as int) =~= self@);
        buffer
    }
}

} // verus!
