//! String keys with string values, one value per key: the `key=value` text
//! format of the lookup cache and of configuration files.

use vstd::prelude::*;
use crate::count_table::keys_of;
use crate::keys::{key_index, Keys};
use crate::text::{chars_of, find_in, opt_view, split_all, split_on, split_once, views};

verus! {

broadcast use vstd::string::group_string_axioms;

/// The pairs with `k` set to `v`: in place where `k` is present, else last.
pub open spec fn pairs_set(
    s: Seq<(Seq<char>, Seq<char>)>,
    k: Seq<char>,
    v: Seq<char>,
) -> Seq<(Seq<char>, Seq<char>)> {
    let i = key_index(keys_of(s), k);
    if 0 <= i < s.len() {
        s.update(i, (k, v))
    } else {
        s.push((k, v))
    }
}

/// The value of `k`, if it has one.
pub open spec fn pairs_get(s: Seq<(Seq<char>, Seq<char>)>, k: Seq<char>) -> Option<Seq<char>> {
    let i = key_index(keys_of(s), k);
    if 0 <= i < s.len() {
        Some(s[i].1)
    } else {
        None
    }
}

/// The pairs after each line of the form `key=value` (split at the first `=`)
/// was set, in order; other lines are skipped.
pub open spec fn pairs_load(
    s: Seq<(Seq<char>, Seq<char>)>,
    lines: Seq<Seq<char>>,
) -> Seq<(Seq<char>, Seq<char>)>
    decreases lines.len(),
{
    if lines.len() == 0 {
        s
    } else {
        let prev = pairs_load(s, lines.drop_last());
        match split_once(lines.last(), '=') {
            Some((k, v)) => pairs_set(prev, k, v),
            None => prev,
        }
    }
}

/// `s` without one carriage return at its end.
pub open spec fn strip_cr(s: Seq<char>) -> Seq<char> {
    if s.len() > 0 && s.last() == '\r' {
        s.drop_last()
    } else {
        s
    }
}

/// The lines of a text as a buffered reader yields them: split at line feeds,
/// a carriage return before a line feed dropped, and no empty line after a
/// final line feed.
pub open spec fn text_lines(text: Seq<char>) -> Seq<Seq<char>> {
    let p = split_all(text, '\n');
    let n = p.len() as int;
    let body = Seq::new((n - 1) as nat, |i: int| strip_cr(p[i]));
    if p[n - 1].len() > 0 {
        body.push(p[n - 1])
    } else {
        body
    }
}

/// String keys, each with one string value, in the order first set.
pub struct KeyValues {
    keys: Keys,
    values: Vec<String>,
}

impl View for KeyValues {
    type V = Seq<(Seq<char>, Seq<char>)>;

    closed spec fn view(&self) -> Seq<(Seq<char>, Seq<char>)> {
        Seq::new(self.keys@.len(), |i: int| (self.keys@[i], self.values@[i]@))
    }
}

impl KeyValues {
    /// Keys and values line up, and no key occurs twice.
    pub closed spec fn wf(&self) -> bool {
        &&& self.keys.wf()
        &&& self.keys@.len() == self.values@.len()
    }

    pub fn new() -> (r: KeyValues)
        ensures
            r.wf(),
            r@ == Seq::<(Seq<char>, Seq<char>)>::empty(),
    {
        let r = KeyValues { keys: Keys::new(), values: Vec::new() };
        assert(r@ =~= Seq::<(Seq<char>, Seq<char>)>::empty());
        r
    }

    pub fn len(&self) -> (r: usize)
        requires
            self.wf(),
        ensures
            r == self@.len(),
    {
        self.keys.len()
    }

    /// Pair `i`.
    pub fn entry(&self, i: usize) -> (r: (&String, &String))
        requires
            self.wf(),
            i < self@.len(),
        ensures
            (r.0@, r.1@) == self@[i as int],
    {
        (self.keys.get(i), &self.values[i])
    }

    /// Sets the value of `key`.
    pub fn set(&mut self, key: &str, value: &str)
        requires
            old(self).wf(),
        ensures
            final(self).wf(),
            final(self)@ == pairs_set(old(self)@, key@, value@),
    {
        let v = value.to_owned();
        assert(keys_of(self@) =~= self.keys@);
        match self.keys.find(key) {
            Some(i) => {
                self.values.set(i, v);
                assert(self@ =~= old(self)@.update(i as int, (key@, value@)));
            },
            None => {
                self.keys.push(key.to_owned());
                self.values.push(v);
                assert(self@ =~= old(self)@.push((key@, value@)));
            },
        }
    }

    /// The value of `key`, if it has one.
    pub fn get(&self, key: &str) -> (r: Option<String>)
        requires
            self.wf(),
        ensures
            opt_view(r) == pairs_get(self@, key@),
    {
        assert(keys_of(self@) =~= self.keys@);
        match self.keys.find(key) {
            Some(i) => Some(self.values[i].clone()),
            None => None,
        }
    }

    /// Sets each line of the form `key=value`, in order.
    pub fn load_lines(&mut self, lines: &Vec<String>)
        requires
            old(self).wf(),
        ensures
            final(self).wf(),
            final(self)@ == pairs_load(old(self)@, views(lines@)),
    {
        let ghost start = self@;
        let mut i: usize = 0;
        assert(views(lines@).subrange(0, 0) =~= Seq::<Seq<char>>::empty());
        while i < lines.len()
            invariant
                self.wf(),
                i <= lines.len(),
                self@ == pairs_load(start, views(lines@).subrange(0, i as int)),
            decreases lines.len() - i,
        {
            let ghost sub = views(lines@).subrange(0, i + 1);
            assert(sub.drop_last() =~= views(lines@).subrange(0, i as int));
            let line = lines[i].as_str();
            let v = chars_of(line);
            assert(v@.subrange(0, v@.len() as int) =~= line@);
            match find_in(&v, '=', 0, v.len()) {
                Some(j) => {
                    let key = line.substring_char(0, j);
                    let value = line.substring_char(j + 1, v.len());
                    self.set(key, value);
                },
                None => {},
            }
            i = i + 1;
        }
        assert(views(lines@).subrange(0, lines.len() as int) =~= views(lines@));
    }
}

/// `s` without one carriage return at its end.
fn without_cr(s: &str) -> (r: String)
    ensures
        r@ == strip_cr(s@),
{
    let v = chars_of(s);
    let n = v.len();
    if n > 0 && v[n - 1] == '\r' {
        s.substring_char(0, n - 1).to_owned()
    } else {
        s.to_owned()
    }
}

/// The lines of a text as a buffered reader yields them.
pub fn lines_of(text: &str) -> (r: Vec<String>)
    ensures
        views(r@) == text_lines(text@),
{
    let v = chars_of(text);
    let pieces = split_on(text, &v, '\n');
    proof {
        crate::text::lemma_split_all_nonempty(text@, '\n');
    }
    let n = pieces.len();
    let mut r: Vec<String> = Vec::new();
    let mut i: usize = 0;
    while i + 1 < n
        invariant
            1 <= n == pieces@.len(),
            i < n,
            views(pieces@) == split_all(text@, '\n'),
            views(r@) == Seq::new(i as nat, |q: int| strip_cr(split_all(text@, '\n')[q])),
        decreases n - i,
    {
        let line = without_cr(pieces[i].as_str());
        let ghost prev = r@;
        r.push(line);
        assert(views(r@) =~= views(prev).push(strip_cr(split_all(text@, '\n')[i as int])));
        assert(views(r@) =~= Seq::new((i + 1) as nat, |q: int| strip_cr(split_all(text@, '\n')[q])));
        i = i + 1;
    }
    let last = &pieces[n - 1];
    if !last.as_str().is_empty() {
        let ghost prev = r@;
        r.push(last.clone());
        assert(views(r@) =~= views(prev).push(split_all(text@, '\n')[n - 1]));
    }
    r
}

/// Reads a configuration text: each line of the form `key=value`, split at
/// its first `=`, sets the key; later lines win. Lines are split at line feeds
/// only, so a carriage return stays part of the value.
pub fn get_config(text: &str) -> (r: KeyValues)
    ensures
        r.wf(),
        r@ == pairs_load(Seq::empty(), split_all(text@, '\n')),
{
    let v = chars_of(text);
    let lines = split_on(text, &v, '\n');
    let mut r = KeyValues::new();
    r.load_lines(&lines);
    r
}

} // verus!
