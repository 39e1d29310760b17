//! Fonts read from their bytes with `rusttype`, kept by name.

use vstd::prelude::*;

verus! {

/// A font of `rusttype`.
#[verifier::external_type_specification]
#[verifier::external_body]
pub struct ExFont<'a>(rusttype::Font<'a>);

/// Whether `rusttype` reads a font from `bytes`: the first face of a TrueType
/// or OpenType file, or of a collection of them.
pub uninterp spec fn font_parses(bytes: Seq<u8>) -> bool;

/// Calls `rusttype::Font::try_from_vec`, which gives the first font of the bytes,
/// or nothing when they hold none; which it is depends on the bytes alone.
#[verifier::external_body]
fn font_from_bytes(bytes: Vec<u8>) -> (r: Option<rusttype::Font<'static>>)
    ensures
        r is Some == font_parses(bytes@),
{
    rusttype::Font::try_from_vec(bytes)
}

/// Fonts by name, each read from its bytes once.
pub struct FontLoader {
    fonts: Vec<(String, rusttype::Font<'static>)>,
    sources: Ghost<Map<Seq<char>, Seq<u8>>>,
    loaded: Ghost<Map<Seq<char>, rusttype::Font<'static>>>,
}

impl FontLoader {
    /// The bytes each font was read from, by name.
    pub closed spec fn sources(&self) -> Map<Seq<char>, Seq<u8>> {
        self.sources@
    }

    /// The font read under each name.
    pub closed spec fn fonts(&self) -> Map<Seq<char>, rusttype::Font<'static>> {
        self.loaded@
    }

    /// The names of the fonts read.
    pub open spec fn names(&self) -> Set<Seq<char>> {
        self.sources().dom()
    }

    /// The names in the table are those of `sources`, each once.
    pub closed spec fn wf(&self) -> bool {
        &&& forall|i: int, j: int| 0 <= i < j < self.fonts@.len() ==> self.fonts@[i].0@ != self.fonts@[j].0@
        &&& forall|i: int| 0 <= i < self.fonts@.len() ==> self.sources@.contains_key(#[trigger] self.fonts@[i].0@)
        &&& forall|n: Seq<char>| #[trigger] self.sources@.contains_key(n) ==> exists|i: int|
            0 <= i < self.fonts@.len() && self.fonts@[i].0@ == n
        &&& self.loaded@.dom() == self.sources@.dom()
        &&& forall|i: int| 0 <= i < self.fonts@.len() ==> self.loaded@[#[trigger] self.fonts@[i].0@] == self.fonts@[i].1
    }

    pub fn new() -> (l: Self)
        ensures
            l.wf(),
            l.sources() == Map::<Seq<char>, Seq<u8>>::empty(),
            l.fonts() == Map::<Seq<char>, rusttype::Font<'static>>::empty(),
    {
        let l = FontLoader { fonts: Vec::new(), sources: Ghost(Map::empty()), loaded: Ghost(Map::empty()) };
        assert(l.sources@ =~= Map::<Seq<char>, Seq<u8>>::empty());
        assert(l.loaded@.dom() =~= l.sources@.dom());
        l
    }

    /// The position of the font named `name`, if there is one.
    fn position(&self, name: &String) -> (pos: Option<usize>)
        requires
            self.wf(),
        ensures
            pos is None <==> !self.names().contains(name@),
            pos matches Some(i) ==> i < self.fonts@.len() && self.fonts@[i as int].0@ == name@,
    {
        let mut i: usize = 0;
        while i < self.fonts.len()
            invariant
                self.wf(),
                i <= self.fonts@.len(),
                forall|j: int| 0 <= j < i ==> self.fonts@[j].0@ != name@,
            decreases self.fonts@.len() - i,
        {
            if self.fonts[i].0 == *name {
                assert(self.sources@.contains_key(self.fonts@[i as int].0@));
                return Some(i);
            }
            i = i + 1;
        }
        proof {
            if self.sources@.contains_key(name@) {
                let k = choose|k: int| 0 <= k < self.fonts@.len() && self.fonts@[k].0@ == name@;
                assert(self.fonts@[k].0@ != name@);
            }
        }
        None
    }

    /// Whether the font named `name` still has to be read.
    pub fn needs_load(&self, name: &str) -> (r: bool)
        requires
            self.wf(),
        ensures
            r == !self.names().contains(name@),
    {
        let name = name.to_owned();
        self.position(&name).is_none()
    }

    /// The font named `name`, if it was read.
    pub fn get_font_if_present(&self, name: &str) -> (r: Option<&rusttype::Font<'static>>)
        requires
            self.wf(),
        ensures
            r is Some == self.names().contains(name@),
            r is Some == self.fonts().contains_key(name@),
            r matches Some(f) ==> *f == self.fonts()[name@],
    {
        let name = name.to_owned();
        match self.position(&name) {
            Some(i) => {
                assert(self.loaded@[self.fonts@[i as int].0@] == self.fonts@[i as int].1);
                Some(&self.fonts[i].1)
            },
            None => None,
        }
    }

    /// Reads a font from `bytes` under `name`, in place of a font read before
    /// under that name. `false`, with nothing changed, when the bytes hold no font.
    pub fn add_font(&mut self, name: String, bytes: Vec<u8>) -> (added: bool)
        requires
            old(self).wf(),
        ensures
            final(self).wf(),
            added == font_parses(bytes@),
            added ==> final(self).sources() == old(self).sources().insert(name@, bytes@),
            added ==> final(self).fonts() == old(self).fonts().insert(name@, final(self).fonts()[name@]),
            added ==> final(self).fonts().contains_key(name@),
            !added ==> final(self).sources() == old(self).sources(),
            !added ==> final(self).fonts() == old(self).fonts(),
    {
        let ghost b = bytes@;
        let font = match font_from_bytes(bytes) {
            Some(font) => font,
            None => {
                return false;
            },
        };
        let ghost n = name@;
        let ghost fv = font;
        match self.position(&name) {
            Some(i) => {
                self.fonts.set(i, (name, font));
            },
            None => {
                self.fonts.push((name, font));
            },
        }
        self.sources = Ghost(self.sources@.insert(n, b));
        self.loaded = Ghost(self.loaded@.insert(n, fv));
        proof {
            let f = self.fonts@;
            let of = old(self).fonts@;
            assert forall|i: int, j: int| 0 <= i < j < f.len() implies f[i].0@ != f[j].0@ by {
                if j < of.len() {
                    if f[i] != of[i] || f[j] != of[j] {
                        assert(f[i].0@ == n || f[j].0@ == n);
                        if f[i].0@ == n {
                            assert(of[j].0@ != n || i == j);
                        }
                    } else {
                        assert(of[i].0@ != of[j].0@);
                    }
                } else {
                    assert(f[j].0@ == n);
                    assert(f[i] == of[i]);
                }
            }
            assert forall|i: int| 0 <= i < f.len() implies self.sources@.contains_key(#[trigger] f[i].0@) by {
                if i < of.len() && f[i] == of[i] {
                    assert(old(self).sources@.contains_key(of[i].0@));
                }
            }
            assert(self.loaded@.dom() =~= self.sources@.dom());
            assert forall|i: int| 0 <= i < f.len() implies self.loaded@[#[trigger] f[i].0@] == f[i].1 by {
                if f[i].0@ != n {
                    assert(i < of.len() && f[i] == of[i]);
                    assert(old(self).loaded@[of[i].0@] == of[i].1);
                }
            }
            assert forall|m: Seq<char>| #[trigger] self.sources@.contains_key(m) implies exists|i: int|
                0 <= i < f.len() && f[i].0@ == m by {
                if m == n {
                    if f.len() > of.len() {
                        assert(f[of.len() as int].0@ == n);
                    } else {
                        let i = choose|i: int| 0 <= i < of.len() && of[i].0@ == n;
                        assert(f[i].0@ == n);
                    }
                } else {
                    let i = choose|i: int| 0 <= i < of.len() && of[i].0@ == m;
                    assert(f[i] == of[i] || of[i].0@ == n);
                    assert(f[i].0@ == m);
                }
            }
        }
        true
    }
}

/// Reading a font under one name leaves the fonts of every other name as they
/// were, and a lookup of a name finds the font read under it: after `add_font`
/// of `name` succeeds, `get_font_if_present(other)` gives the same font as before.
pub proof fn law_fonts_kept_by_name(before: FontLoader, after: FontLoader, name: Seq<char>, other: Seq<char>)
    requires
        after.fonts() == before.fonts().insert(name, after.fonts()[name]),
        other != name,
    ensures
        after.fonts().contains_key(other) == before.fonts().contains_key(other),
        before.fonts().contains_key(other) ==> after.fonts()[other] == before.fonts()[other],
        after.fonts().contains_key(name),
{
}

} // verus!
