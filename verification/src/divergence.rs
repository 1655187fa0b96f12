//! Does a message's plain text say substantially more than its HTML?

use vstd::hash_set::StringHashSet;
use vstd::prelude::*;

use crate::text::chars_of;
use crate::text::lowercase;
use crate::text::lowercase_of;
use crate::text::occurs_at;
use crate::text::occurs_here;
use crate::text::ranges_text;
use crate::text::runs;
use crate::text::runs_of;
use crate::text::texts;
use crate::text::words;
use crate::text::CharClass;
use crate::text::string_of_range;

verus! {

/// The characters that may stand before a link.
pub open spec fn opens_link(c: char) -> bool {
    c == '(' || c == '<' || c == '[' || c == '"'
}

/// A word without the characters that may stand before a link.
pub open spec fn link_core(w: Seq<char>) -> Seq<char>
    decreases w.len(),
{
    if w.len() > 0 && opens_link(w[0]) {
        link_core(w.drop_first())
    } else {
        w
    }
}

/// A word that is a link.
pub open spec fn is_link(w: Seq<char>) -> bool {
    let core = link_core(w);
    occurs_at(core, "http://"@, 0) || occurs_at(core, "https://"@, 0) || occurs_at(core, "www."@, 0)
}

/// `t` is the lowercase of a run of four or more letters and digits inside a
/// word of the text that is no link.
pub open spec fn significant(s: Seq<char>, t: Seq<char>) -> bool {
    exists|i: int, j: int|
        #![trigger runs(words(s)[i], CharClass::Alphanumeric)[j]]
        {
            &&& 0 <= i < words(s).len()
            &&& !is_link(words(s)[i])
            &&& 0 <= j < runs(words(s)[i], CharClass::Alphanumeric).len()
            &&& runs(words(s)[i], CharClass::Alphanumeric)[j].len() >= 4
            &&& t == lowercase(runs(words(s)[i], CharClass::Alphanumeric)[j])
        }
}

/// The significant words among the first `n` words of a text.
pub open spec fn significant_within(s: Seq<char>, n: int, t: Seq<char>) -> bool {
    exists|i: int, j: int|
        #![trigger runs(words(s)[i], CharClass::Alphanumeric)[j]]
        {
            &&& 0 <= i < n
            &&& !is_link(words(s)[i])
            &&& 0 <= j < runs(words(s)[i], CharClass::Alphanumeric).len()
            &&& runs(words(s)[i], CharClass::Alphanumeric)[j].len() >= 4
            &&& t == lowercase(runs(words(s)[i], CharClass::Alphanumeric)[j])
        }
}

/// Decides [`is_link`].
fn link_word(word: &[char]) -> (yes: bool)
    ensures
        yes == is_link(word@),
{
    let n: usize = word.len();
    let mut a: usize = 0;
    proof {
        assert(word@.subrange(0, n as int) =~= word@);
    }
    while a < n && (word[a] == '(' || word[a] == '<' || word[a] == '[' || word[a] == '"')
        invariant
            n == word@.len(),
            a <= n,
            link_core(word@) == link_core(word@.subrange(a as int, n as int)),
        decreases n - a,
    {
        proof {
            assert(word@.subrange(a as int, n as int).drop_first() =~= word@.subrange(
                a + 1,
                n as int,
            ));
        }
        a += 1;
    }
    let ghost core = word@.subrange(a as int, n as int);
    let http = chars_of("http://");
    let https = chars_of("https://");
    let www = chars_of("www.");
    proof {
        lemma_occurs_in_rest(word@, http@, a as int);
        lemma_occurs_in_rest(word@, https@, a as int);
        lemma_occurs_in_rest(word@, www@, a as int);
    }
    occurs_here(word, &http, a) || occurs_here(word, &https, a) || occurs_here(word, &www, a)
}

proof fn lemma_occurs_in_rest(s: Seq<char>, needle: Seq<char>, a: int)
    requires
        0 <= a <= s.len(),
    ensures
        occurs_at(s, needle, a) == occurs_at(s.subrange(a, s.len() as int), needle, 0),
{
    let rest = s.subrange(a, s.len() as int);
    if a + needle.len() <= s.len() {
        assert(rest.subrange(0, needle.len() as int) =~= s.subrange(a, a + needle.len()));
    }
}

/// A set of words that can also be walked in order.
pub struct WordSet {
    words: Vec<String>,
    index: StringHashSet,
}

impl WordSet {
    /// The words of the set.
    pub closed spec fn set(&self) -> Set<Seq<char>> {
        self.index@
    }

    /// The list holds each word of the set once.
    pub closed spec fn valid(&self) -> bool {
        &&& texts(self.words@).no_duplicates()
        &&& forall|t: Seq<char>| self.index@.contains(t) <==> texts(self.words@).contains(t)
    }

    /// Whether a word is in the set.
    pub fn contains(&self, word: &str) -> (yes: bool)
        ensures
            yes == self.set().contains(word@),
    {
        self.index.contains(word)
    }

    /// The number of words in the set.
    pub fn len(&self) -> (n: usize)
        requires
            self.valid(),
        ensures
            n == self.set().len(),
            self.set().finite(),
    {
        proof {
            self.lemma_listed();
        }
        self.words.len()
    }

    proof fn lemma_listed(&self)
        requires
            self.valid(),
        ensures
            self.set() == texts(self.words@).to_set(),
            self.set().finite(),
            self.set().len() == self.words@.len(),
    {
        let list = texts(self.words@);
        list.unique_seq_to_set();
        assert(self.set() =~= list.to_set());
        vstd::seq_lib::seq_to_set_is_finite(list);
    }

    fn add_word(&mut self, word: String)
        requires
            old(self).valid(),
        ensures
            final(self).valid(),
            final(self).set() == old(self).set().insert(word@),
    {
        let ghost before = texts(self.words@);
        if self.index.insert(word.clone()) {
            self.words.push(word);
            proof {
                let after = texts(self.words@);
                assert(after =~= before.push(word@));
                assert forall|t: Seq<char>| self.index@.contains(t) <==> after.contains(t) by {
                    if before.contains(t) {
                        let k = choose|k: int| 0 <= k < before.len() && before[k] == t;
                        assert(after[k] == t);
                    }
                    assert(after[before.len() as int] == word@);
                }
            }
        } else {
            proof {
                assert(self.index@ =~= old(self).index@);
            }
        }
    }

    /// How many words of this set the other lacks, or shares.
    fn count_against(&self, other: &WordSet, shared: bool) -> (n: usize)
        requires
            self.valid(),
        ensures
            shared ==> n == self.set().intersect(other.set()).len(),
            !shared ==> n == self.set().difference(other.set()).len(),
    {
        let mut n: usize = 0;
        let mut i: usize = 0;
        let ghost list = texts(self.words@);
        let ghost mut picked: Set<Seq<char>> = Set::empty();
        while i < self.words.len()
            invariant
                i <= self.words@.len(),
                list == texts(self.words@),
                list.no_duplicates(),
                picked.finite(),
                n == picked.len(),
                n <= i,
                forall|t: Seq<char>|
                    #[trigger] picked.contains(t) <==> (list.take(i as int).contains(t)
                        && other.set().contains(t) == shared),
            decreases self.words@.len() - i,
        {
            let ghost word = list[i as int];
            let ghost before = picked;
            proof {
                assert(list.take(i as int + 1) =~= list.take(i as int).push(word));
                assert(!list.take(i as int).contains(word));
                assert forall|t: Seq<char>|
                    list.take(i as int + 1).contains(t) <==> (list.take(i as int).contains(t) || t
                        == word) by {
                    let next = list.take(i as int + 1);
                    if list.take(i as int).contains(t) {
                        let k = choose|k: int|
                            0 <= k < list.take(i as int).len() && list.take(i as int)[k] == t;
                        assert(next[k] == t);
                    }
                    assert(next[i as int] == word);
                }
            }
            if other.contains(self.words[i].as_str()) == shared {
                n += 1;
                proof {
                    picked = picked.insert(word);
                }
            }
            i += 1;
        }
        proof {
            self.lemma_listed();
            assert(list.take(list.len() as int) =~= list);
            if shared {
                assert(picked =~= self.set().intersect(other.set()));
            } else {
                assert(picked =~= self.set().difference(other.set()));
            }
        }
        n
    }
}

/// The significant words of a text: lowercase runs of four or more letters and
/// digits, links left out.
pub fn significant_words(s: &str) -> (out: WordSet)
    ensures
        out.valid(),
        forall|t: Seq<char>| #[trigger] out.set().contains(t) <==> significant(s@, t),
{
    let cs = chars_of(s);
    let tokens = runs_of(&cs, CharClass::NonSpace);
    let mut out = WordSet { words: Vec::new(), index: StringHashSet::new() };
    let mut i: usize = 0;
    while i < tokens.len()
        invariant
            cs@ == s@,
            i <= tokens@.len(),
            ranges_text(cs@, tokens@) == words(s@),
            forall|k: int|
                0 <= k < tokens@.len() ==> (#[trigger] tokens@[k]).0 < tokens@[k].1 <= cs@.len(),
            out.valid(),
            forall|t: Seq<char>|
                #[trigger] out.set().contains(t) <==> significant_within(s@, i as int, t),
        decreases tokens@.len() - i,
    {
        let (a, z) = tokens[i];
        let token = &cs[a..z];
        let ghost before = out.set();
        proof {
            assert(token@ == ranges_text(cs@, tokens@)[i as int]);
        }
        if !link_word(token) {
            let parts = runs_of(token, CharClass::Alphanumeric);
            let ghost runs_here = runs(token@, CharClass::Alphanumeric);
            let mut j: usize = 0;
            while j < parts.len()
                invariant
                    j <= parts@.len(),
                    ranges_text(token@, parts@) == runs_here,
                    runs_here == runs(words(s@)[i as int], CharClass::Alphanumeric),
                    forall|k: int|
                        0 <= k < parts@.len() ==> (#[trigger] parts@[k]).0 < parts@[k].1
                            <= token@.len(),
                    out.valid(),
                    forall|t: Seq<char>|
                        #[trigger] out.set().contains(t) <==> (before.contains(t) || exists|q: int|
                            0 <= q < j && (#[trigger] runs_here[q]).len() >= 4 && t == lowercase(
                                runs_here[q],
                            )),
                decreases parts@.len() - j,
            {
                let (c, d) = parts[j];
                let ghost earlier = out.set();
                proof {
                    assert(ranges_text(token@, parts@)[j as int] == token@.subrange(
                        c as int,
                        d as int,
                    ));
                }
                if d - c >= 4 {
                    let word = string_of_range(token, c, d);
                    let low = lowercase_of(word.as_str());
                    out.add_word(low);
                    proof {
                        assert(low@ == lowercase(runs_here[j as int]));
                    }
                }
                proof {
                    assert(runs_here[j as int].len() == d - c);
                }
                j += 1;
            }
        }
        proof {
            assert forall|t: Seq<char>|
                #[trigger] out.set().contains(t) <==> significant_within(s@, i + 1, t) by {
                let w = words(s@)[i as int];
                if before.contains(t) {
                    assert(significant_within(s@, i as int, t));
                }
                if significant_within(s@, i + 1, t) && !significant_within(s@, i as int, t) {
                    let (i0, j0) = choose|i0: int, j0: int|
                        #![trigger runs(words(s@)[i0], CharClass::Alphanumeric)[j0]]
                        {
                            &&& 0 <= i0 < i + 1
                            &&& !is_link(words(s@)[i0])
                            &&& 0 <= j0 < runs(words(s@)[i0], CharClass::Alphanumeric).len()
                            &&& runs(words(s@)[i0], CharClass::Alphanumeric)[j0].len() >= 4
                            &&& t == lowercase(runs(words(s@)[i0], CharClass::Alphanumeric)[j0])
                        };
                    assert(i0 == i);
                }
            }
        }
        i += 1;
    }
    proof {
        assert forall|t: Seq<char>| #[trigger] out.set().contains(t) <==> significant(s@, t) by {
            assert(significant(s@, t) <==> significant_within(s@, words(s@).len() as int, t));
        }
    }
    out
}

/// The set of significant words of a text.
pub open spec fn significant_set(s: Seq<char>) -> Set<Seq<char>> {
    Set::new(|t: Seq<char>| significant(s, t))
}

/// The plain text has at least twenty significant words, at least twelve of
/// them and at least three tenths that the HTML lacks, and holds at least four
/// fifths of those of the HTML, which has some.
pub open spec fn diverges(plain: Set<Seq<char>>, html: Set<Seq<char>>) -> bool {
    let surplus = plain.difference(html).len();
    let covered = html.intersect(plain).len();
    &&& plain.len() >= 20
    &&& html.len() > 0
    &&& surplus >= 12
    &&& surplus * 10 >= plain.len() * 3
    &&& covered * 5 >= html.len() * 4
}

/// Does the plain-text part say substantially more than the HTML part?
///
/// The test is shaped after an attack, not after "the parts differ": a sender
/// who wants to stay unsuspicious mirrors the harmless HTML into the plain part
/// and appends a payload, so the HTML vocabulary is almost fully contained in
/// the plain text, which then has substantially more.
pub fn parts_diverge(plain: &str, html_as_text: &str) -> (yes: bool)
    ensures
        yes == diverges(significant_set(plain@), significant_set(html_as_text@)),
{
    let p = significant_words(plain);
    let h = significant_words(html_as_text);
    proof {
        assert(p.set() =~= significant_set(plain@));
        assert(h.set() =~= significant_set(html_as_text@));
    }
    let plain_count: usize = p.len();
    if plain_count < 20 {
        return false;
    }
    let html_count: usize = h.len();
    if html_count == 0 {
        return false;
    }
    let surplus: usize = p.count_against(&h, false);
    let covered: usize = h.count_against(&p, true);
    surplus >= 12 && (surplus as u128) * 10 >= (plain_count as u128) * 3 && (covered as u128) * 5
        >= (html_count as u128) * 4
}

/// HTML that holds every significant word of the plain text never diverges from
/// it, however much more the HTML says.
pub proof fn fuller_html_never_diverges(plain: Seq<char>, html: Seq<char>)
    requires
        significant_set(plain).subset_of(significant_set(html)),
    ensures
        !diverges(significant_set(plain), significant_set(html)),
{
    assert(significant_set(plain).difference(significant_set(html)) =~= Set::empty());
}

} // verus!
