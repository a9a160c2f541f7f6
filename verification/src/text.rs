//! Plain-text rendering of the entities, for an embedding user interface.

use vstd::prelude::*;

verus! {

use crate::scheduler::Activity;
use crate::scheduler::Slot;
use vstd::string::StringExecFns;

/// The text rendered for a sequence of slots: a tab, a dash and a space, the
/// slot's name, and a newline, for each slot in order.
pub open spec fn slot_lines(slots: Seq<Slot>) -> Seq<char>
    decreases slots.len(),
{
    if slots.len() == 0 {
        Seq::empty()
    } else {
        "\t- "@ + slots.first().name@ + "\n"@ + slot_lines(slots.drop_first())
    }
}

/// Rendering distributes over splitting the slots anywhere.
proof fn lemma_slot_lines_append(s1: Seq<Slot>, s2: Seq<Slot>)
    ensures
        slot_lines(s1 + s2) == slot_lines(s1) + slot_lines(s2),
    decreases s1.len(),
{
    if s1.len() == 0 {
        assert(s1 + s2 =~= s2);
        assert(slot_lines(s1) + slot_lines(s2) =~= slot_lines(s2));
    } else {
        assert((s1 + s2).first() == s1.first());
        assert((s1 + s2).drop_first() =~= s1.drop_first() + s2);
        lemma_slot_lines_append(s1.drop_first(), s2);
        assert(slot_lines(s1 + s2) =~= slot_lines(s1) + slot_lines(s2));
    }
}

/// One indented line per slot the activity uses, ready for display.
pub fn formated_activity_slots(activity: &Activity) -> (r: String)
    ensures
        r@ == slot_lines(activity.slots_to_use@),
{
    let ghost all = activity.slots_to_use@;
    let mut out = String::new();
    let mut i: usize = 0;
    while i < activity.slots_to_use.len()
        invariant
            i <= all.len(),
            all == activity.slots_to_use@,
            out@ == slot_lines(all.take(i as int)),
        decreases all.len() - i,
    {
        let ghost before = out@;
        out.append("\t- ");
        out.append(activity.slots_to_use[i].name.as_str());
        out.append("\n");
        proof {
            let one = seq![all[i as int]];
            assert(all.take(i + 1) =~= all.take(i as int) + one);
            lemma_slot_lines_append(all.take(i as int), one);
            assert(one.first() == all[i as int]);
            assert(one.drop_first() =~= Seq::<Slot>::empty());
            assert(slot_lines(one.drop_first()) == Seq::<char>::empty());
            assert(slot_lines(one) =~= "\t- "@ + all[i as int].name@ + "\n"@);
            assert(out@ =~= slot_lines(all.take(i + 1)));
        }
        i += 1;
    }
    proof {
        assert(all.take(all.len() as int) =~= all);
    }
    out
}

/// The banner an embedding user interface shows at start-up.
pub fn get_name_text() -> &'static str {
    r###"
    _____        _                _         _                          _
   / ____|      | |              | |       | |                        | |
  | (___    ___ | |__    ___   __| | _   _ | |  ___  _ __  _   _  ___ | |_
   \___ \  / __|| '_ \  / _ \ / _` || | | || | / _ \| '__|| | | |/ __|| __|
   ____) || (__ | | | ||  __/| (_| || |_| || ||  __/| |   | |_| |\__ \| |_
  |_____/  \___||_| |_| \___| \__,_| \__,_||_| \___||_|    \__,_||___/ \__|
"###
}

} // verus!
