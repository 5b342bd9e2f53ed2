//! Attributes of message types.
use vstd::prelude::*;

verus! {

/// The attribute that gives a message a flag.
pub const FLAG_ATTRIBUTE: &'static str = "message_flag";

/// The attribute that names the reply to a message.
pub const REPLY_ATTRIBUTE: &'static str = "message_reply";

/// Whether a path is the single name `name`.
pub open spec fn is_named(path: Seq<String>, name: Seq<char>) -> bool {
    path.len() == 1 && path[0]@ == name
}

/// The numbers of the attributes with the given name, in order.
pub open spec fn named(paths: Seq<Vec<String>>, name: Seq<char>) -> Seq<usize>
    decreases paths.len(),
{
    if paths.len() == 0 {
        Seq::empty()
    } else if is_named(paths.last()@, name) {
        named(paths.drop_last(), name).push((paths.len() - 1) as usize)
    } else {
        named(paths.drop_last(), name)
    }
}

/// Whether a path is the single name `name`.
fn path_is(path: &Vec<String>, name: &str) -> (r: bool)
    ensures
        r == is_named(path@, name@),
{
    path.len() == 1 && path[0] == name.to_owned()
}

/// The numbers of the attributes with the given name, in order.
fn find_named(paths: &Vec<Vec<String>>, name: &str) -> (r: Vec<usize>)
    ensures
        r@ == named(paths@, name@),
{
    let mut r: Vec<usize> = Vec::new();
    let mut i: usize = 0;
    assert(paths@.take(0) =~= Seq::<Vec<String>>::empty());
    while i < paths.len()
        invariant
            i <= paths@.len(),
            r@ == named(paths@.take(i as int), name@),
        decreases paths@.len() - i,
    {
        assert(paths@.take(i + 1).drop_last() =~= paths@.take(i as int));
        if path_is(&paths[i], name) {
            r.push(i);
        }
        i += 1;
    }
    assert(paths@.take(paths@.len() as int) =~= paths@);
    r
}

/// Which attributes of a message type are to be read.
#[derive(Debug)]
pub struct MessagePlan {
    /// The attributes that give flags, in order.
    pub flags: Vec<usize>,
    /// The attribute that names the reply.
    pub reply: Option<usize>,
}

/// The first of some numbers.
pub open spec fn first_of(numbers: Seq<usize>) -> Option<usize> {
    if numbers.len() > 0 {
        Some(numbers[0])
    } else {
        None
    }
}

/// Which attributes of a message type are to be read, given the paths of all its attributes. Every
/// flag counts; of several replies, the first one does.
pub fn derive_message_body(paths: &Vec<Vec<String>>) -> (r: MessagePlan)
    ensures
        r.flags@ == named(paths@, FLAG_ATTRIBUTE@),
        r.reply == first_of(named(paths@, REPLY_ATTRIBUTE@)),
{
    let replies = find_named(paths, REPLY_ATTRIBUTE);
    let reply = if replies.len() > 0 {
        Some(replies[0])
    } else {
        None
    };
    MessagePlan { flags: find_named(paths, FLAG_ATTRIBUTE), reply }
}

/// Which attribute names the reply, or why there is none.
pub fn derive_message_repliable(paths: &Vec<Vec<String>>) -> (r: Result<usize, String>)
    ensures
        match first_of(named(paths@, REPLY_ATTRIBUTE@)) {
            Some(i) => r == Ok::<usize, String>(i),
            None => r.is_err() && r->Err_0@ == "'message_reply' attribute is required"@,
        },
{
    match derive_message_body(paths).reply {
        Some(i) => Ok(i),
        None => Err("'message_reply' attribute is required".to_owned()),
    }
}

/// An attribute is found by its name if and only if it has that name, and each is found once, in
/// order.
pub proof fn lemma_named(paths: Seq<Vec<String>>, name: Seq<char>)
    requires
        paths.len() <= usize::MAX,
    ensures
        forall|i: usize| #[trigger]
            named(paths, name).contains(i) <==> i < paths.len() && is_named(paths[i as int]@, name),
        forall|a: int, b: int|
            0 <= a < b < named(paths, name).len() ==> (#[trigger] named(paths, name)[a]) < (
            #[trigger] named(paths, name)[b]),
    decreases paths.len(),
{
    if paths.len() > 0 {
        let rest = named(paths.drop_last(), name);
        let all = named(paths, name);
        let last = (paths.len() - 1) as usize;
        lemma_named(paths.drop_last(), name);
        assert forall|i: usize| #[trigger] all.contains(i) <==> i < paths.len() && is_named(
            paths[i as int]@,
            name,
        ) by {
            if all.contains(i) {
                let k = choose|k: int| 0 <= k < all.len() && all[k] == i;
                if k < rest.len() {
                    assert(rest[k] == i);
                    assert(rest.contains(i));
                    assert(paths.drop_last()[i as int] == paths[i as int]);
                }
            }
            if i < paths.len() && is_named(paths[i as int]@, name) {
                if i == last {
                    assert(all[rest.len() as int] == last);
                } else {
                    assert(paths.drop_last()[i as int] == paths[i as int]);
                    assert(rest.contains(i));
                    let k = choose|k: int| 0 <= k < rest.len() && rest[k] == i;
                    assert(all[k] == i);
                }
            }
        }
        assert forall|a: int, b: int| 0 <= a < b < all.len() implies (#[trigger] all[a]) < (
        #[trigger] all[b]) by {
            assert(rest[a] == all[a]);
            if b == rest.len() {
                assert(rest.contains(rest[a]));
            } else {
                assert(rest[b] == all[b]);
            }
        }
    }
}

/// An attribute counts if and only if its path is the one name that is looked for, and of those that
/// count as replies the first one is taken.
pub proof fn lemma_first_named_is_taken(paths: Seq<Vec<String>>, name: Seq<char>, i: usize)
    requires
        paths.len() <= usize::MAX,
    ensures
        named(paths, name).contains(i) <==> i < paths.len() && paths[i as int]@.len() == 1 && paths[i as int]@[0]@
            == name,
        first_of(named(paths, name)) == Some(i) <==> {
            &&& named(paths, name).contains(i)
            &&& forall|j: usize| #[trigger] named(paths, name).contains(j) ==> i <= j
        },
        first_of(named(paths, name)) is None <==> forall|j: int|
            0 <= j < paths.len() ==> !((#[trigger] paths[j])@.len() == 1 && paths[j]@[0]@ == name),
{
    lemma_named(paths, name);
    let all = named(paths, name);
    if all.len() > 0 {
        assert(all.contains(all[0]));
        assert forall|j: usize| #[trigger] all.contains(j) implies all[0] <= j by {
            let k = choose|k: int| 0 <= k < all.len() && all[k] == j;
            if k > 0 {
                assert(all[0] < all[k]);
            }
        }
        let first = all[0] as int;
        assert(is_named(paths[first]@, name));
    } else {
        assert forall|j: int| 0 <= j < paths.len() implies !((#[trigger] paths[j])@.len() == 1 && paths[j]@[0]@
            == name) by {
            assert(!all.contains(j as usize));
        }
    }
}

} // verus!
