use vstd::prelude::*;
use crate::notation::Notation;

verus! {

/// The name of a construct of a language.
pub type ConstructName = String;

/// A language, known here by its name.
pub struct Language {
    name: String,
}

impl Language {
    pub closed spec fn spec_name(&self) -> Seq<char> {
        self.name@
    }

    pub fn new(name: &str) -> (r: Language)
        ensures
            r.spec_name() == name@,
    {
        Language { name: name.to_string() }
    }

    pub fn name(&self) -> (r: &str)
        ensures
            r@ == self.spec_name(),
    {
        self.name.as_str()
    }
}

/// Whether two strings hold the same characters.
pub fn same_text(a: &str, b: &str) -> (r: bool)
    ensures
        r == (a@ == b@),
{
    let n = a.unicode_len();
    if n != b.unicode_len() {
        return false;
    }
    let mut i: usize = 0;
    while i < n
        invariant
            n == a@.len(),
            n == b@.len(),
            i <= n,
            forall|j: int| 0 <= j < i ==> a@[j] == b@[j],
        decreases n - i,
    {
        if a.get_char(i) != b.get_char(i) {
            return false;
        }
        i = i + 1;
    }
    assert(a@ =~= b@);
    true
}

/// The notations of `s`, each under its construct's name; a later pair
/// replaces an earlier one of the same name.
pub open spec fn notation_map(s: Seq<(ConstructName, Notation)>) -> Map<Seq<char>, Notation>
    decreases s.len(),
{
    if s.len() == 0 {
        Map::empty()
    } else {
        notation_map(s.drop_last()).insert(s.last().0@, s.last().1)
    }
}

/// No two pairs of `s` have the same name.
pub open spec fn names_unique(s: Seq<(ConstructName, Notation)>) -> bool {
    forall|i: int, j: int| 0 <= i < s.len() && 0 <= j < s.len() && i != j ==> (#[trigger] s[i]).0@ != (#[trigger] s[j]).0@
}

proof fn lemma_notation_map(s: Seq<(ConstructName, Notation)>)
    requires
        names_unique(s),
    ensures
        forall|i: int| 0 <= i < s.len() ==> notation_map(s).contains_key((#[trigger] s[i]).0@)
            && notation_map(s)[s[i].0@] == s[i].1,
        forall|k: Seq<char>| #[trigger] notation_map(s).contains_key(k) ==> exists|i: int| 0 <= i < s.len() && s[i].0@ == k,
    decreases s.len(),
{
    if s.len() > 0 {
        let d = s.drop_last();
        assert(names_unique(d)) by {
            assert forall|i: int, j: int| 0 <= i < d.len() && 0 <= j < d.len() && i != j implies (#[trigger] d[i]).0@ != (#[trigger] d[j]).0@ by {
                assert(d[i] == s[i] && d[j] == s[j]);
            }
        }
        lemma_notation_map(d);
        assert forall|i: int| 0 <= i < s.len() implies notation_map(s).contains_key((#[trigger] s[i]).0@)
            && notation_map(s)[s[i].0@] == s[i].1 by {
            if i < s.len() - 1 {
                assert(d[i] == s[i]);
                assert(s[i].0@ != s[s.len() - 1].0@);
            }
        }
        assert forall|k: Seq<char>| #[trigger] notation_map(s).contains_key(k) implies exists|i: int| 0 <= i < s.len() && s[i].0@ == k by {
            if k != s.last().0@ {
                assert(notation_map(d).contains_key(k));
                let i = choose|i: int| 0 <= i < d.len() && d[i].0@ == k;
                assert(s[i] == d[i]);
            } else {
                assert(s[s.len() - 1].0@ == k);
            }
        }
    }
}

/// The notation of each construct of a language.
pub struct NotationSet {
    name: String,
    notations: Vec<(ConstructName, Notation)>,
}

impl NotationSet {
    /// The notation of each construct, by name.
    pub closed spec fn notations(&self) -> Map<Seq<char>, Notation> {
        notation_map(self.notations@)
    }

    pub closed spec fn language_name(&self) -> Seq<char> {
        self.name@
    }

    pub closed spec fn wf(&self) -> bool {
        names_unique(self.notations@)
    }

    /// The notation set of `language` holding each given pair; where a
    /// name comes twice, the later notation is kept.
    pub fn new(language: &Language, notations: Vec<(ConstructName, Notation)>) -> (r: NotationSet)
        ensures
            r.wf(),
            r.notations() == notation_map(notations@),
            r.language_name() == language.spec_name(),
    {
        let ghost input = notations@;
        let mut rest = notations;
        let mut map: Vec<(ConstructName, Notation)> = Vec::new();
        let ghost mut k: int = 0;
        while rest.len() > 0
            invariant
                0 <= k <= input.len(),
                rest@ == input.subrange(k, input.len() as int),
                names_unique(map@),
                notation_map(map@) == notation_map(input.subrange(0, k)),
            decreases rest@.len(),
        {
            let (construct, notation) = rest.remove(0);
            proof {
                assert(input[k] == (construct, notation)) by {
                    assert(input.subrange(k, input.len() as int)[0] == input[k]);
                }
                assert(rest@ =~= input.subrange(k + 1, input.len() as int));
                assert(input.subrange(0, k + 1).drop_last() =~= input.subrange(0, k));
                lemma_notation_map(map@);
            }
            let ghost before = map@;
            let mut i: usize = 0;
            let mut found = false;
            while i < map.len()
                invariant_except_break
                    !found,
                invariant
                    map@ == before,
                    i <= map@.len(),
                    forall|j: int| 0 <= j < i ==> (#[trigger] map@[j]).0@ != construct@,
                ensures
                    map@ == before,
                    found ==> i < map@.len() && map@[i as int].0@ == construct@,
                    !found ==> forall|j: int| 0 <= j < map@.len() ==> (#[trigger] map@[j]).0@ != construct@,
                decreases map@.len() - i,
            {
                if same_text(map[i].0.as_str(), construct.as_str()) {
                    found = true;
                    break;
                }
                i = i + 1;
            }
            if found {
                map.remove(i);
                map.insert(i, (construct, notation));
                proof {
                    let after = map@;
                    assert(after =~= before.update(i as int, (construct, notation)));
                    assert(names_unique(after)) by {
                        assert forall|a: int, b: int| 0 <= a < after.len() && 0 <= b < after.len() && a != b implies (#[trigger] after[a]).0@ != (#[trigger] after[b]).0@ by {
                            if a != i && b != i {
                                assert(after[a] == before[a] && after[b] == before[b]);
                            } else if a == i {
                                assert(after[b] == before[b]);
                                assert(before[i as int].0@ != before[b].0@);
                            } else {
                                assert(after[a] == before[a]);
                                assert(before[i as int].0@ != before[a].0@);
                            }
                        }
                    }
                    lemma_notation_map(after);
                    assert(notation_map(after) =~= notation_map(before).insert(construct@, notation)) by {
                        assert forall|key: Seq<char>| notation_map(after).contains_key(key) <==> notation_map(before).insert(construct@, notation).contains_key(key) by {
                            if notation_map(after).contains_key(key) {
                                let j = choose|j: int| 0 <= j < after.len() && after[j].0@ == key;
                                if j != i {
                                    assert(after[j] == before[j]);
                                }
                            }
                            if notation_map(before).contains_key(key) && key != construct@ {
                                let j = choose|j: int| 0 <= j < before.len() && before[j].0@ == key;
                                assert(j != i);
                                assert(after[j] == before[j]);
                            }
                            if key == construct@ {
                                assert(after[i as int].0@ == key);
                            }
                        }
                        assert forall|key: Seq<char>| #[trigger] notation_map(after).contains_key(key) implies notation_map(after)[key] == notation_map(before).insert(construct@, notation)[key] by {
                            let j = choose|j: int| 0 <= j < after.len() && after[j].0@ == key;
                            if j != i {
                                assert(after[j] == before[j]);
                                assert(before[j].0@ != before[i as int].0@);
                            }
                        }
                    }
                }
            } else {
                map.push((construct, notation));
                proof {
                    let after = map@;
                    assert(after.drop_last() =~= before);
                    assert(names_unique(after)) by {
                        assert forall|a: int, b: int| 0 <= a < after.len() && 0 <= b < after.len() && a != b implies (#[trigger] after[a]).0@ != (#[trigger] after[b]).0@ by {
                            if a < before.len() && b < before.len() {
                                assert(after[a] == before[a] && after[b] == before[b]);
                            } else if a < before.len() {
                                assert(after[a] == before[a]);
                            } else {
                                assert(after[b] == before[b]);
                            }
                        }
                    }
                }
            }
            proof {
                k = k + 1;
            }
        }
        proof {
            assert(k == input.len()) by {
                if k < input.len() {
                    assert(input.subrange(k, input.len() as int).len() > 0);
                }
            }
            assert(input.subrange(0, k) =~= input);
        }
        NotationSet { name: language.name().to_string(), notations: map }
    }

    /// The notation of the construct named `construct`, if there is one.
    pub fn lookup(&self, construct: &str) -> (r: Option<&Notation>)
        requires
            self.wf(),
        ensures
            match r {
                Some(n) => self.notations().contains_key(construct@) && *n == self.notations()[construct@],
                None => !self.notations().contains_key(construct@),
            },
    {
        proof {
            lemma_notation_map(self.notations@);
        }
        let mut i: usize = 0;
        while i < self.notations.len()
            invariant
                self.wf(),
                i <= self.notations@.len(),
                forall|j: int| 0 <= j < i ==> (#[trigger] self.notations@[j]).0@ != construct@,
            decreases self.notations@.len() - i,
        {
            if same_text(self.notations[i].0.as_str(), construct) {
                proof {
                    lemma_notation_map(self.notations@);
                    assert(self.notations@[i as int].0@ == construct@);
                    assert(notation_map(self.notations@)[self.notations@[i as int].0@] == self.notations@[i as int].1);
                }
                return Some(&self.notations[i].1);
            }
            i = i + 1;
        }
        None
    }
}

} // verus!
