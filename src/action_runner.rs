use vstd::prelude::*;
use vstd::string::*;

verus! {

/// The actions a list of registrations stands for: a later registration of
/// an id replaces an earlier one.
pub open spec fn actions_of<A>(v: Seq<(String, A)>) -> Map<Seq<char>, A>
    decreases v.len(),
{
    if v.len() == 0 {
        Map::empty()
    } else {
        actions_of(v.drop_last()).insert(v.last().0@, v.last().1)
    }
}

/// Id-to-callback registry for user-triggered follow-up actions.
pub struct ActionRunner<A> {
    val: Vec<(String, A)>,
}

impl<A> View for ActionRunner<A> {
    type V = Map<Seq<char>, A>;

    closed spec fn view(&self) -> Map<Seq<char>, A> {
        actions_of(self.val@)
    }
}

impl<A> Default for ActionRunner<A> {
    fn default() -> (r: Self)
        ensures
            r@ == Map::<Seq<char>, A>::empty(),
    {
        ActionRunner::new()
    }
}

impl<A> ActionRunner<A> {
    pub fn new() -> (r: Self)
        ensures
            r@ == Map::<Seq<char>, A>::empty(),
    {
        ActionRunner { val: Vec::new() }
    }

    /// Registers `f` under `key`; the last registration of a key wins.
    pub fn add(&mut self, key: &str, f: A)
        ensures
            final(self)@ == old(self)@.insert(key@, f),
    {
        self.val.push((String::from_str(key), f));
        assert(self.val@.drop_last() =~= old(self).val@);
    }

    /// The action registered under `key`; a missing id is no error.
    pub fn get(&self, key: &str) -> (r: Option<&A>)
        ensures
            r is Some <==> self@.contains_key(key@),
            r matches Some(f) ==> self@.contains_key(key@) && *f == self@[key@],
    {
        let wanted = String::from_str(key);
        let mut j: usize = self.val.len();
        assert(self.val@.take(j as int) =~= self.val@);
        while j > 0
            invariant
                wanted@ == key@,
                j <= self.val@.len(),
                actions_of(self.val@).contains_key(key@) <==> actions_of(
                    self.val@.take(j as int),
                ).contains_key(key@),
                actions_of(self.val@).contains_key(key@) ==> actions_of(self.val@)[key@]
                    == actions_of(self.val@.take(j as int))[key@],
            decreases j,
        {
            assert(self.val@.take(j as int).drop_last() =~= self.val@.take(j - 1));
            assert(self.val@.take(j as int).last() == self.val@[j - 1]);
            if self.val[j - 1].0 == wanted {
                return Some(&self.val[j - 1].1);
            }
            j = j - 1;
        }
        None
    }
}

} // verus!
