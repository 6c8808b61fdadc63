//! Names of variables, definitions and tags.
use vstd::hash_set::StringHashSet;
use vstd::prelude::*;
use vstd::string::*;

verus! {

/// A name: of a variable, of a definition or of a tag.
#[derive(Debug, PartialEq, Eq, PartialOrd, Ord, Hash)]
pub struct Name {
    text: String,
}

impl View for Name {
    type V = Seq<char>;

    closed spec fn view(&self) -> Seq<char> {
        self.text@
    }
}

impl Clone for Name {
    fn clone(&self) -> (res: Name)
        ensures
            res@ == self@,
    {
        Name { text: self.text.clone() }
    }
}

/// The model of an optional name.
pub open spec fn opt_name(name: Option<Name>) -> Option<Seq<char>> {
    match name {
        Some(name) => Some(name@),
        None => None,
    }
}

/// The texts of a sequence of names.
pub open spec fn texts(names: Seq<Name>) -> Seq<Seq<char>> {
    names.map_values(|name: Name| name@)
}

/// The letter that stands for a digit in base 26.
pub open spec fn letter(digit: int) -> char {
    (97 + digit) as char
}

/// A number in base 26, written with the letters from `a` on as digits, the least
/// significant digit first.
pub open spec fn letters(id: nat) -> Seq<char>
    decreases id,
{
    if id < 26 {
        seq![letter(id as int)]
    } else {
        seq![letter((id % 26) as int)] + letters(id / 26)
    }
}

/// The name of the number before the one that `name` is bound to.
pub open spec fn pred_name(name: Seq<char>) -> Seq<char> {
    name + seq!['-', '1']
}

/// The name that stands for what is left out of a cyclic term.
pub open spec fn ellipsis() -> Seq<char> {
    seq!['.', '.', '.']
}

impl Name {
    /// The name with the given text.
    pub fn new(text: &str) -> (name: Name)
        ensures
            name@ == text@,
    {
        Name { text: text.to_owned() }
    }

    /// The text of the name.
    pub fn as_str(&self) -> (text: &str)
        ensures
            text@ == self@,
    {
        self.text.as_str()
    }

    /// Whether two names have the same text.
    pub fn same(&self, other: &Name) -> (res: bool)
        ensures
            res == (self@ == other@),
    {
        self.text == other.text
    }

    /// Whether an optional name is there and has the same text as `other`.
    pub fn is(name: &Option<Name>, other: &Name) -> (res: bool)
        ensures
            res == (opt_name(*name) == Some(other@)),
    {
        match name {
            Some(name) => name.same(other),
            None => false,
        }
    }

    /// The name of the variable with the given number.
    pub fn from_id(id: u64) -> (name: Name)
        ensures
            name@ == letters(id as nat),
    {
        let alphabet = "abcdefghijklmnopqrstuvwxyz";
        proof {
            reveal_strlit("abcdefghijklmnopqrstuvwxyz");
        }
        let mut text = String::new();
        let mut rest: u64 = id;
        while rest >= 26
            invariant
                alphabet@ == "abcdefghijklmnopqrstuvwxyz"@,
                text@ + letters(rest as nat) =~= letters(id as nat),
            decreases rest,
        {
            proof {
                reveal_strlit("abcdefghijklmnopqrstuvwxyz");
            }
            let digit: usize = (rest % 26) as usize;
            text.append(alphabet.substring_char(digit, digit + 1));
            rest = rest / 26;
        }
        let digit: usize = rest as usize;
        text.append(alphabet.substring_char(digit, digit + 1));
        Name { text }
    }

    /// The name of the predecessor: the text followed by `-1`.
    pub fn pred(&self) -> (name: Name)
        ensures
            name@ == pred_name(self@),
    {
        proof {
            reveal_strlit("-1");
        }
        let text = self.text.clone().concat("-1");
        assert(text@ =~= pred_name(self@));
        Name { text }
    }

    /// The name that stands for what is left out of a cyclic term.
    pub fn ellipsis() -> (name: Name)
        ensures
            name@ == ellipsis(),
    {
        proof {
            reveal_strlit("...");
        }
        let name = Name::new("...");
        assert(name@ =~= ellipsis());
        name
    }

    /// Whether a sequence of names holds this one.
    pub fn is_in(&self, names: &Vec<Name>) -> (res: bool)
        ensures
            res == texts(names@).contains(self@),
    {
        let mut i: usize = 0;
        while i < names.len()
            invariant
                i <= names.len(),
                forall|j: int| 0 <= j < i ==> (#[trigger] texts(names@)[j]) != self@,
            decreases names.len() - i,
        {
            if names[i].same(self) {
                assert(texts(names@)[i as int] == self@);
                return true;
            }
            i += 1;
        }
        false
    }
}

/// A set of names.
pub struct NameSet {
    names: StringHashSet,
}

impl View for NameSet {
    type V = Set<Seq<char>>;

    closed spec fn view(&self) -> Set<Seq<char>> {
        self.names@
    }
}

impl NameSet {
    /// The empty set.
    pub fn new() -> (set: NameSet)
        ensures
            set@ == Set::<Seq<char>>::empty(),
    {
        NameSet { names: StringHashSet::new() }
    }

    /// Adds a name, and says whether it is new.
    pub fn insert(&mut self, name: Name) -> (new: bool)
        ensures
            final(self)@ == old(self)@.insert(name@),
            new == !old(self)@.contains(name@),
    {
        self.names.insert(name.text)
    }

    /// Whether the set holds a name.
    pub fn contains(&self, name: &Name) -> (res: bool)
        ensures
            res == self@.contains(name@),
    {
        self.names.contains(name.text.as_str())
    }
}

/// Every character of the name of a variable is a small letter.
pub proof fn lemma_letters_are_letters(id: nat)
    ensures
        letters(id).len() > 0,
        forall|i: int|
            0 <= i < letters(id).len() ==> 'a' <= #[trigger] letters(id)[i] <= 'z',
    decreases id,
{
    if id >= 26 {
        lemma_letters_are_letters(id / 26);
    }
}

/// Variables with different numbers have different names.
pub proof fn law_letters_injective(a: nat, b: nat)
    ensures
        letters(a) == letters(b) <==> a == b,
    decreases a,
{
    lemma_letters_are_letters(a / 26);
    lemma_letters_are_letters(b / 26);
    if letters(a) == letters(b) {
        assert(letters(a)[0] == letter((a % 26) as int));
        assert(letters(b)[0] == letter((b % 26) as int));
        assert(a % 26 == b % 26);
        if a >= 26 && b >= 26 {
            assert(letters(a).skip(1) =~= letters(a / 26));
            assert(letters(b).skip(1) =~= letters(b / 26));
            law_letters_injective(a / 26, b / 26);
        }
    }
}

/// No variable that readback declares is called like a predecessor or like the ellipsis.
pub proof fn law_letters_are_not_reserved(id: nat, name: Seq<char>)
    ensures
        letters(id) != pred_name(name),
        letters(id) != ellipsis(),
{
    lemma_letters_are_letters(id);
    assert(pred_name(name)[name.len() as int] == '-');
    assert(ellipsis()[0] == '.');
}

/// The number that letters spell, each one as a digit from `a` for zero to `z` for 25, the least
/// significant one first.
pub open spec fn spelled(text: Seq<char>) -> int
    decreases text.len(),
{
    if text.len() == 0 {
        0
    } else {
        (text[0] as int - 'a' as int) + 26 * spelled(text.drop_first())
    }
}

/// The name of a number spells it, in letters from `a` to `z`, without idle zeros at the end.
pub proof fn law_letters_spell_the_number(id: nat)
    ensures
        spelled(letters(id)) == id,
        letters(id).len() > 0,
        letters(id).len() > 1 ==> letters(id).last() != 'a',
        forall|i: int| 0 <= i < letters(id).len() ==> 'a' <= #[trigger] letters(id)[i] <= 'z',
    decreases id,
{
    if id < 26 {
        assert(letters(id).drop_first() =~= Seq::<char>::empty());
        assert(spelled(Seq::<char>::empty()) == 0);
    } else {
        let rest = letters(id / 26);
        law_letters_spell_the_number(id / 26);
        assert(letters(id).drop_first() =~= rest);
        assert(letters(id).last() == rest.last());
        if rest.len() == 1 {
            assert(rest.drop_first() =~= Seq::<char>::empty());
            assert(spelled(Seq::<char>::empty()) == 0);
            assert(rest.last() == rest[0]);
        }
        assert forall|i: int| 0 <= i < letters(id).len() implies 'a' <= #[trigger] letters(
            id,
        )[i] <= 'z' by {
            if i > 0 {
                assert(letters(id)[i] == rest[i - 1]);
            }
        }
    }
}

/// The name of a predecessor is the name of the number followed by a minus sign and a one. The
/// placeholder for a cycle is three dots.
pub proof fn law_reserved_names(name: Seq<char>)
    ensures
        pred_name(name).len() == name.len() + 2,
        pred_name(name).take(name.len() as int) == name,
        pred_name(name)[name.len() as int] == '-',
        pred_name(name).last() == '1',
        ellipsis().len() == 3,
        forall|i: int| 0 <= i < 3 ==> #[trigger] ellipsis()[i] == '.',
{
    assert(pred_name(name).take(name.len() as int) =~= name);
}

} // verus!
