//! Builders for the chat room's announcement lines: the arrival and
//! departure notices, and the list of the users already in the room.

use vstd::prelude::*;
use vstd::string::StringExecFns;

verus! {

/// The line announcing that `name` has joined the room.
pub open spec fn arrival_message(name: Seq<char>) -> Seq<char> {
    "* "@ + name + " has entered the room\n"@
}

/// The line announcing that `name` has left the room.
pub open spec fn departure_message(name: Seq<char>) -> Seq<char> {
    "* "@ + name + " has left the room\n"@
}

/// The comma-separated list of names, in their given order.
pub open spec fn name_list(names: Seq<Seq<char>>) -> Seq<char>
    decreases names.len(),
{
    if names.len() == 0 {
        Seq::empty()
    } else if names.len() == 1 {
        names[0]
    } else {
        name_list(names.drop_last()) + ", "@ + names.last()
    }
}

/// The room-contents line: the names present, in order, or the line for
/// an empty room.
pub open spec fn users_message(names: Seq<Seq<char>>) -> Seq<char> {
    if names.len() == 0 {
        "* no users in room\n"@
    } else {
        "* the room contains: "@ + name_list(names) + "\n"@
    }
}

/// Build the arrival announcement for `name`.
pub fn create_arrival_message(name: &str) -> (r: String)
    ensures
        r@ == arrival_message(name@),
{
    let mut r: String = "* ".to_owned();
    r.append(name);
    r.append(" has entered the room\n");
    proof {
        assert(r@ =~= arrival_message(name@));
    }
    r
}

/// Build the departure announcement for `name`.
pub fn create_departure_message(name: &str) -> (r: String)
    ensures
        r@ == departure_message(name@),
{
    let mut r: String = "* ".to_owned();
    r.append(name);
    r.append(" has left the room\n");
    proof {
        assert(r@ =~= departure_message(name@));
    }
    r
}

/// Build the room-contents line for the users currently present.
pub fn create_current_users_message(users: &Vec<String>) -> (r: String)
    ensures
        r@ == users_message(users.deep_view()),
{
    let n = users.len();
    if n == 0 {
        return "* no users in room\n".to_owned();
    }
    let mut r: String = "* the room contains: ".to_owned();
    let first: &String = &users[0];
    r.append(first.as_str());
    proof {
        assert(users.deep_view().take(1)[0] == users@[0]@);
        assert(r@ =~= "* the room contains: "@ + name_list(users.deep_view().take(1)));
    }
    let mut i: usize = 1;
    while i < n
        invariant
            1 <= i <= n,
            n == users@.len(),
            r@ == "* the room contains: "@ + name_list(users.deep_view().take(i as int)),
        decreases n - i,
    {
        r.append(", ");
        let u: &String = &users[i];
        r.append(u.as_str());
        proof {
            let names = users.deep_view();
            assert(names.take(i + 1).drop_last() =~= names.take(i as int));
            assert(names.take(i + 1).last() == users@[i as int]@);
            assert(r@ =~= "* the room contains: "@ + name_list(names.take(i + 1)));
        }
        i += 1;
    }
    r.append("\n");
    proof {
        assert(users.deep_view().take(n as int) =~= users.deep_view());
        assert(r@ =~= users_message(users.deep_view()));
    }
    r
}

} // verus!
