//! The expression text as it is given on a command line.

use vstd::prelude::*;

verus! {

/// `words` joined into one text with a single space between neighbours.
pub open spec fn joined(words: Seq<Seq<char>>) -> Seq<char>
    decreases words.len(),
{
    if words.len() == 0 {
        Seq::empty()
    } else if words.len() == 1 {
        words[0]
    } else {
        joined(words.drop_last()) + seq![' '] + words.last()
    }
}

/// The expression that the arguments of a program carry: the first argument
/// after the program's name has to be `-text`, and the words after it, of
/// which there has to be one at least, are the expression.
pub open spec fn expression_of(args: Seq<Seq<char>>) -> Option<Seq<char>> {
    if args.len() > 2 && args[1] == "-text"@ {
        Some(joined(args.skip(2)))
    } else {
        None
    }
}

/// Takes the expression out of the arguments of a program, the program's
/// name first among them. `None` says that they carry no expression: the
/// program was not called as it has to be.
pub fn expression_from_args(args: &Vec<String>) -> (expression: Option<String>)
    ensures
        expression is Some <==> expression_of(args.deep_view()) is Some,
        expression matches Some(text) ==> Some(text@) == expression_of(args.deep_view()),
{
    let ghost all = args.deep_view();
    let flag = "-text".to_owned();
    if args.len() <= 2 || args[1] != flag {
        return None;
    }
    let ghost words = all.skip(2);
    let mut text = String::new();
    let mut i: usize = 2;
    while i < args.len()
        invariant
            2 <= i <= args@.len(),
            all == args.deep_view(),
            words == all.skip(2),
            text@ == joined(words.take(i - 2)),
        decreases args@.len() - i,
    {
        proof {
            reveal_strlit(" ");
            assert(" "@ =~= seq![' ']);
            assert(words.take(i - 1).drop_last() =~= words.take(i - 2));
            assert(words.take(i - 1).last() == args@[i as int]@);
        }
        if i > 2 {
            text.append(" ");
        }
        text.append(args[i].as_str());
        proof {
            if i == 2 {
                assert(text@ =~= args@[i as int]@);
            }
        }
        i = i + 1;
    }
    proof {
        assert(words.take(args@.len() - 2) =~= words);
    }
    Some(text)
}

} // verus!
