//! The fonts that the window can show its text in: their names, and the
//! font files that were read so far.

use vstd::prelude::*;
use crate::text::{same_text, text_views};

verus! {

/// The name of the font that the window starts with.
pub const DEFAULT_FONT: &'static str = "Default";

/// The name of the font that comes with the program.
pub const BUNDLED_FONT: &'static str = "DejaVuSans";

/// The names of the fonts, and the files that were read so far.
pub struct FontManager {
    pub current_font: String,
    pub fonts: Vec<String>,
    pub font_cache: Vec<(String, Vec<u8>)>,
}

/// Whether one of `names` is `name`.
pub open spec fn listed(names: Seq<Seq<char>>, name: Seq<char>) -> bool {
    exists|i: int| 0 <= i < names.len() && #[trigger] names[i] == name
}

/// The names `names`, and behind them each name of `found` that was not
/// there before, in the order of `found`.
pub open spec fn with_new(names: Seq<Seq<char>>, found: Seq<Seq<char>>) -> Seq<Seq<char>>
    decreases found.len(),
{
    if found.len() == 0 {
        names
    } else {
        let before = with_new(names, found.drop_last());
        if listed(before, found.last()) {
            before
        } else {
            before.push(found.last())
        }
    }
}

/// The names of the files of `cache`, in order.
pub open spec fn cached_names(cache: Seq<(String, Vec<u8>)>) -> Seq<Seq<char>> {
    cache.map_values(|e: (String, Vec<u8>)| e.0@)
}

/// The first position in `names` of the name `name`, or the length of
/// `names` where it is not among them.
pub open spec fn name_position(names: Seq<Seq<char>>, name: Seq<char>) -> int
    decreases names.len(),
{
    if names.len() == 0 || names[0] == name {
        0
    } else {
        1 + name_position(names.drop_first(), name)
    }
}

/// `name_position` is the least index that holds the name.
pub proof fn lemma_name_position(names: Seq<Seq<char>>, name: Seq<char>, i: int)
    requires
        0 <= i <= names.len(),
        forall|j: int| 0 <= j < i ==> #[trigger] names[j] != name,
        i < names.len() ==> names[i] == name,
    ensures
        name_position(names, name) == i,
    decreases names.len(),
{
    if names.len() == 0 || names[0] == name {
    } else {
        let rest = names.drop_first();
        assert forall|j: int| 0 <= j < i - 1 implies #[trigger] rest[j] != name by {
            assert(rest[j] == names[j + 1]);
        }
        lemma_name_position(rest, name, i - 1);
    }
}

fn find_name(names: &Vec<String>, name: &str) -> (r: usize)
    ensures
        r <= names.len(),
        r as int == name_position(text_views(names@), name@),
        r < names.len() <==> listed(text_views(names@), name@),
{
    let mut i: usize = 0;
    while i < names.len() && !same_text(names[i].as_str(), name)
        invariant
            i <= names.len(),
            forall|j: int| 0 <= j < i ==> names@[j]@ != name@,
        decreases names.len() - i,
    {
        i += 1;
    }
    proof {
        let views = text_views(names@);
        assert forall|j: int| 0 <= j < i implies #[trigger] views[j] != name@ by {
            assert(views[j] == names@[j]@);
        }
        lemma_name_position(views, name@, i as int);
        if i < names.len() {
            assert(views[i as int] == name@);
        } else {
            assert(!listed(views, name@));
        }
    }
    i
}

impl FontManager {
    /// Whether no font has two files: as in a map from names to files, no
    /// name occurs twice among the files that were read.
    pub open spec fn wf(&self) -> bool {
        forall|i: int, j: int|
            0 <= i < j < self.font_cache@.len() ==> (#[trigger] self.font_cache@[i]).0@ != (
            #[trigger] self.font_cache@[j]).0@
    }

    /// The fonts of a new window: the default font, which is the current
    /// one, and the font that comes with the program, whose file holds
    /// `bundled`.
    pub fn new(bundled: Vec<u8>) -> (r: FontManager)
        ensures
            r.wf(),
            r.current_font@ == DEFAULT_FONT@,
            text_views(r.fonts@) == seq![DEFAULT_FONT@, BUNDLED_FONT@],
            r.font_cache@.len() == 1,
            r.font_cache@[0].0@ == BUNDLED_FONT@,
            r.font_cache@[0].1 == bundled,
    {
        let mut fonts: Vec<String> = Vec::new();
        fonts.push(DEFAULT_FONT.to_owned());
        fonts.push(BUNDLED_FONT.to_owned());
        let mut font_cache: Vec<(String, Vec<u8>)> = Vec::new();
        font_cache.push((BUNDLED_FONT.to_owned(), bundled));
        proof {
            assert(text_views(fonts@) =~= seq![DEFAULT_FONT@, BUNDLED_FONT@]);
        }
        FontManager { current_font: DEFAULT_FONT.to_owned(), fonts, font_cache }
    }

    /// Adds the names `found` of the font files of a directory to the
    /// fonts, each once: a name that is there already is passed over.
    pub fn load_available_fonts(&mut self, found: &Vec<String>)
        ensures
            text_views(final(self).fonts@) == with_new(
                text_views(old(self).fonts@),
                text_views(found@),
            ),
            final(self).current_font == old(self).current_font,
            final(self).font_cache == old(self).font_cache,
    {
        let mut i: usize = 0;
        proof {
            assert(text_views(found@).take(0).len() == 0);
        }
        while i < found.len()
            invariant
                i <= found.len(),
                self.current_font == old(self).current_font,
                self.font_cache == old(self).font_cache,
                text_views(self.fonts@) == with_new(
                    text_views(old(self).fonts@),
                    text_views(found@).take(i as int),
                ),
            decreases found.len() - i,
        {
            proof {
                let next = text_views(found@).take(i + 1);
                assert(next.drop_last() =~= text_views(found@).take(i as int));
                assert(next.last() == found@[i as int]@);
            }
            let at = find_name(&self.fonts, found[i].as_str());
            if at >= self.fonts.len() {
                let ghost before = self.fonts@;
                self.fonts.push(found[i].clone());
                proof {
                    assert(text_views(self.fonts@) =~= text_views(before).push(found@[i as int]@));
                }
            }
            i += 1;
        }
        proof {
            assert(text_views(found@).take(found.len() as int) =~= text_views(found@));
        }
    }

    /// The file of the font `name`, if it was read before.
    pub fn get_font(&self, name: &str) -> (r: Option<&Vec<u8>>)
        ensures
            match r {
                Some(bytes) => {
                    let at = name_position(cached_names(self.font_cache@), name@);
                    &&& listed(cached_names(self.font_cache@), name@)
                    &&& 0 <= at < self.font_cache@.len()
                    &&& *bytes == self.font_cache@[at].1
                },
                None => !listed(cached_names(self.font_cache@), name@),
            },
    {
        let mut i: usize = 0;
        while i < self.font_cache.len() && !same_text(self.font_cache[i].0.as_str(), name)
            invariant
                i <= self.font_cache.len(),
                forall|j: int| 0 <= j < i ==> self.font_cache@[j].0@ != name@,
            decreases self.font_cache.len() - i,
        {
            i += 1;
        }
        proof {
            let views = cached_names(self.font_cache@);
            assert forall|j: int| 0 <= j < i implies #[trigger] views[j] != name@ by {
                assert(views[j] == self.font_cache@[j].0@);
            }
            lemma_name_position(views, name@, i as int);
            if i < self.font_cache.len() {
                assert(views[i as int] == name@);
            } else {
                assert(!listed(views, name@));
            }
        }
        if i < self.font_cache.len() {
            Some(&self.font_cache[i].1)
        } else {
            None
        }
    }

    /// Keeps the file `bytes` of the font `name`, which was just read, and
    /// adds the name to the fonts. A font whose file is kept already stays
    /// as it is.
    pub fn keep_font(&mut self, name: &str, bytes: Vec<u8>)
        ensures
            old(self).wf() ==> final(self).wf(),
            final(self).current_font == old(self).current_font,
            listed(cached_names(old(self).font_cache@), name@) ==> final(self).font_cache == old(
                self,
            ).font_cache && final(self).fonts == old(self).fonts,
            !listed(cached_names(old(self).font_cache@), name@) ==> {
                &&& final(self).font_cache@.len() == old(self).font_cache@.len() + 1
                &&& final(self).font_cache@.drop_last() == old(self).font_cache@
                &&& final(self).font_cache@.last().0@ == name@
                &&& final(self).font_cache@.last().1 == bytes
                &&& text_views(final(self).fonts@) == text_views(old(self).fonts@).push(name@)
            },
    {
        if self.get_font(name).is_none() {
            let ghost fonts = self.fonts@;
            let ghost cache = self.font_cache@;
            self.font_cache.push((name.to_owned(), bytes));
            self.fonts.push(name.to_owned());
            proof {
                assert(self.font_cache@.drop_last() =~= cache);
                assert(text_views(self.fonts@) =~= text_views(fonts).push(name@));
                if old(self).wf() {
                    assert forall|i: int, j: int|
                        0 <= i < j < self.font_cache@.len() implies (
                    #[trigger] self.font_cache@[i]).0@ != (#[trigger] self.font_cache@[j]).0@ by {
                        assert(self.font_cache@[i] == cache[i]);
                        if j < cache.len() {
                            assert(self.font_cache@[j] == cache[j]);
                        } else {
                            assert(cached_names(cache)[i] == cache[i].0@);
                        }
                    }
                }
            }
        }
    }

    /// The names of the fonts.
    pub fn list_fonts(&self) -> (r: &Vec<String>)
        ensures
            *r == self.fonts,
    {
        &self.fonts
    }
}

} // verus!
