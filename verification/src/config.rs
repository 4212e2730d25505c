//! Application settings: a string-to-string map and the typed settings
//! read from it with their defaults.
use vstd::prelude::*;
use crate::text::{trim, chars_of, trim_chars, string_of, string_from, str_equal};
use crate::num::{parse_u32, parse_u32_spec};

verus! {

/// The entries of a sequence of pairs as a map (a later pair wins).
pub open spec fn pairs_map(s: Seq<(String, String)>) -> Map<Seq<char>, Seq<char>>
    decreases s.len(),
{
    if s.len() == 0 {
        Map::empty()
    } else {
        pairs_map(s.drop_last()).insert(s.last().0@, s.last().1@)
    }
}

/// No key occurs twice.
pub open spec fn distinct_keys(s: Seq<(String, String)>) -> bool {
    forall|i: int, j: int| 0 <= i < j < s.len() ==> (#[trigger] s[i]).0@ != (#[trigger] s[j]).0@
}

proof fn lemma_pairs_map(s: Seq<(String, String)>)
    requires
        distinct_keys(s),
    ensures
        forall|k: Seq<char>|
            #[trigger] pairs_map(s).contains_key(k) <==> exists|j: int| 0 <= j < s.len() && (#[trigger] s[j]).0@ == k,
        forall|j: int| 0 <= j < s.len() ==> pairs_map(s)[(#[trigger] s[j]).0@] == s[j].1@,
    decreases s.len(),
{
    if s.len() > 0 {
        let t = s.drop_last();
        assert forall|i: int, j: int| 0 <= i < j < t.len() implies (#[trigger] t[i]).0@ != (#[trigger] t[j]).0@ by {
            assert(t[i] == s[i] && t[j] == s[j]);
        }
        lemma_pairs_map(t);
        assert forall|k: Seq<char>|
            #[trigger] pairs_map(s).contains_key(k) <==> exists|j: int| 0 <= j < s.len() && (#[trigger] s[j]).0@ == k by {
            if pairs_map(t).contains_key(k) {
                let j = choose|j: int| 0 <= j < t.len() && (#[trigger] t[j]).0@ == k;
                assert(s[j] == t[j]);
            }
            if exists|j: int| 0 <= j < s.len() && (#[trigger] s[j]).0@ == k {
                let j = choose|j: int| 0 <= j < s.len() && (#[trigger] s[j]).0@ == k;
                if j < t.len() {
                    assert(t[j] == s[j]);
                }
            }
        }
        assert forall|j: int| 0 <= j < s.len() implies pairs_map(s)[(#[trigger] s[j]).0@] == s[j].1@ by {
            if j < t.len() {
                assert(t[j] == s[j]);
                assert(s[j].0@ != s[s.len() - 1].0@);
            }
        }
    }
}

/// Application settings.
pub struct Config {
    data: Vec<(String, String)>,
}

impl View for Config {
    type V = Map<Seq<char>, Seq<char>>;

    closed spec fn view(&self) -> Map<Seq<char>, Seq<char>> {
        pairs_map(self.data@)
    }
}

/// Value of `key` in `m`, or `default`.
pub open spec fn setting_or(m: Map<Seq<char>, Seq<char>>, key: Seq<char>, default: Seq<char>) -> Seq<char> {
    if m.contains_key(key) {
        m[key]
    } else {
        default
    }
}

impl Config {
    /// No key is recorded twice.
    pub closed spec fn wf(&self) -> bool {
        distinct_keys(self.data@)
    }

    /// Settings with no entry.
    pub fn new() -> (r: Self)
        ensures
            r.wf(),
            r@ == Map::<Seq<char>, Seq<char>>::empty(),
    {
        let r = Config { data: Vec::new() };
        assert(r.data@ =~= Seq::<(String, String)>::empty());
        r
    }

    /// Position of `key` among the entries.
    fn position(&self, key: &str) -> (r: Option<usize>)
        requires
            self.wf(),
        ensures
            match r {
                Some(i) => i < self.data@.len() && self.data@[i as int].0@ == key@
                    && self@.contains_key(key@) && self@[key@] == self.data@[i as int].1@,
                None => !self@.contains_key(key@),
            },
    {
        proof {
            lemma_pairs_map(self.data@);
        }
        let mut i: usize = 0;
        while i < self.data.len()
            invariant
                self.wf(),
                i <= self.data@.len(),
                forall|j: int| 0 <= j < i ==> (#[trigger] self.data@[j]).0@ != key@,
            decreases self.data@.len() - i,
        {
            if str_equal(self.data[i].0.as_str(), key) {
                proof {
                    lemma_pairs_map(self.data@);
                }
                return Some(i);
            }
            i += 1;
        }
        proof {
            lemma_pairs_map(self.data@);
        }
        None
    }

    /// The value of `key`, or `default` when it is not set.
    pub fn get(&self, key: &str, default: &str) -> (r: String)
        requires
            self.wf(),
        ensures
            r@ == setting_or(self@, key@, default@),
    {
        match self.position(key) {
            Some(i) => self.data[i].1.clone(),
            None => string_from(default),
        }
    }

    /// Sets `key` to `value`.
    pub fn set(&mut self, key: &str, value: &str)
        requires
            old(self).wf(),
        ensures
            final(self).wf(),
            final(self)@ == old(self)@.insert(key@, value@),
    {
        let ghost s = self.data@;
        proof {
            lemma_pairs_map(s);
        }
        let v = string_from(value);
        match self.position(key) {
            Some(i) => {
                let k = self.data[i].0.clone();
                self.data.set(i, (k, v));
                let ghost s2 = self.data@;
                assert forall|a: int, b: int| 0 <= a < b < s2.len() implies (#[trigger] s2[a]).0@ != (#[trigger] s2[b]).0@ by {
                    if a != i {
                        assert(s2[a] == s[a]);
                    }
                    if b != i {
                        assert(s2[b] == s[b]);
                    }
                }
                proof {
                    lemma_pairs_map(s2);
                    assert forall|x: Seq<char>| #[trigger] pairs_map(s2).contains_key(x) <==> pairs_map(s).insert(key@, value@).contains_key(x) by {
                        if exists|j: int| 0 <= j < s2.len() && (#[trigger] s2[j]).0@ == x {
                            let j = choose|j: int| 0 <= j < s2.len() && (#[trigger] s2[j]).0@ == x;
                            if j != i {
                                assert(s[j] == s2[j]);
                            }
                        }
                        if exists|j: int| 0 <= j < s.len() && (#[trigger] s[j]).0@ == x {
                            let j = choose|j: int| 0 <= j < s.len() && (#[trigger] s[j]).0@ == x;
                            if j != i {
                                assert(s[j] == s2[j]);
                            } else {
                                assert(s2[j].0@ == x);
                            }
                        }
                        if x == key@ {
                            assert(s2[i as int].0@ == x);
                        }
                    }
                    assert forall|x: Seq<char>| #[trigger] pairs_map(s2).contains_key(x) implies pairs_map(s2)[x] == pairs_map(s).insert(key@, value@)[x] by {
                        let j = choose|j: int| 0 <= j < s2.len() && (#[trigger] s2[j]).0@ == x;
                        if j != i {
                            assert(s[j] == s2[j]);
                        }
                    }
                    assert(pairs_map(s2) =~= pairs_map(s).insert(key@, value@));
                }
            },
            None => {
                let k = string_from(key);
                self.data.push((k, v));
                let ghost s2 = self.data@;
                assert(s2.drop_last() =~= s);
                assert forall|a: int, b: int| 0 <= a < b < s2.len() implies (#[trigger] s2[a]).0@ != (#[trigger] s2[b]).0@ by {
                    assert(s[a] == s2[a]);
                    if b < s.len() {
                        assert(s[b] == s2[b]);
                    } else {
                        assert(!pairs_map(s).contains_key(key@));
                    }
                }
            },
        }
    }

    /// The value stored for `key`, borrowed, or `default`.
    fn value_or<'a>(&'a self, key: &str, default: &'a str) -> (r: &'a str)
        requires
            self.wf(),
        ensures
            r@ == setting_or(self@, key@, default@),
    {
        match self.position(key) {
            Some(i) => self.data[i].1.as_str(),
            None => default,
        }
    }

    /// Theme setting (`themeMode`), `auto` by default.
    pub fn theme_mode(&self) -> (r: &str)
        requires
            self.wf(),
        ensures
            r@ == setting_or(self@, "themeMode"@, "auto"@),
    {
        self.value_or("themeMode", "auto")
    }

    /// Line indicator setting (`lineIndicatorMode`), `on` by default.
    pub fn line_indicator(&self) -> (r: &str)
        requires
            self.wf(),
        ensures
            r@ == setting_or(self@, "lineIndicatorMode"@, "on"@),
    {
        self.value_or("lineIndicatorMode", "on")
    }

    /// Rainbow gutter (`gutterRainbow`): on unless set to exactly `false`.
    pub fn gutter_rainbow(&self) -> (r: bool)
        requires
            self.wf(),
        ensures
            r == !(self@.contains_key("gutterRainbow"@) && self@["gutterRainbow"@] == "false"@),
    {
        match self.position("gutterRainbow") {
            Some(i) => !str_equal(self.data[i].1.as_str(), "false"),
            None => true,
        }
    }

    /// Auto-pairing flags (`autoPairFlags`) when they parse as a `u32`,
    /// else 63 (every pair enabled).
    pub fn auto_pair_flags(&self) -> (r: u32)
        requires
            self.wf(),
        ensures
            r == (if self@.contains_key("autoPairFlags"@) && parse_u32_spec(self@["autoPairFlags"@]) is Some {
                parse_u32_spec(self@["autoPairFlags"@])->0
            } else {
                63u32
            }),
    {
        match self.position("autoPairFlags") {
            Some(i) => {
                let cs = chars_of(self.data[i].1.as_str());
                match parse_u32(cs.as_slice()) {
                    Some(v) => v,
                    None => 63,
                }
            },
            None => 63,
        }
    }

    /// The notes directory chosen in `autoSaveDirectory`, trimmed, when it
    /// is set and not blank. Whether it exists is for the caller to check;
    /// the default directory is used otherwise.
    pub fn notes_dir_override(&self) -> (r: Option<String>)
        requires
            self.wf(),
        ensures
            match r {
                Some(p) => self@.contains_key("autoSaveDirectory"@) && p@ == trim(self@["autoSaveDirectory"@])
                    && p@.len() > 0,
                None => !self@.contains_key("autoSaveDirectory"@) || trim(self@["autoSaveDirectory"@]).len() == 0,
            },
    {
        match self.position("autoSaveDirectory") {
            Some(i) => {
                let cs = chars_of(self.data[i].1.as_str());
                let t = trim_chars(cs.as_slice());
                if t.len() == 0 {
                    None
                } else {
                    Some(string_of(t.as_slice()))
                }
            },
            None => None,
        }
    }

    /// The stored entries, each key once.
    pub fn entries(&self) -> (r: &[(String, String)])
        requires
            self.wf(),
        ensures
            distinct_keys(r@),
            pairs_map(r@) == self@,
    {
        self.data.as_slice()
    }
}

} // verus!
