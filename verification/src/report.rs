//! What is said of the levels at which a text is readable.
use vstd::prelude::*;

verus! {

use crate::features::is_monotonic;

/// The digit of a level, given by its index.
pub open spec fn digit(index: int) -> Seq<char> {
    if index == 0 {
        "1"@
    } else if index == 1 {
        "2"@
    } else if index == 2 {
        "3"@
    } else if index == 3 {
        "4"@
    } else if index == 4 {
        "5"@
    } else {
        "6"@
    }
}

fn digit_text(index: usize) -> (r: &'static str)
    requires
        index < 6,
    ensures
        r@ == digit(index as int),
{
    if index == 0 {
        "1"
    } else if index == 1 {
        "2"
    } else if index == 2 {
        "3"
    } else if index == 3 {
        "4"
    } else if index == 4 {
        "5"
    } else {
        "6"
    }
}

/// The number of levels that a dictionary has words for: 6 for HSK and 4 for TOP.
pub open spec fn dictionary_levels(is_hsk: bool) -> int {
    if is_hsk {
        6
    } else {
        4
    }
}

/// How the level with the given index is called in a list of levels.
pub open spec fn level_name(is_hsk: bool, index: int) -> Seq<char> {
    if index < dictionary_levels(is_hsk) {
        "L"@ + digit(index)
    } else if is_hsk {
        "L7 (OOV)"@
    } else {
        "L5 (beyond TOP)"@
    }
}

/// How the level with the given index is called in a list of levels.
pub fn level_label(is_hsk: bool, index: usize) -> (r: String)
    ensures
        r@ == level_name(is_hsk, index as int),
{
    let known: usize = if is_hsk {
        6
    } else {
        4
    };
    if index < known {
        let mut name: String = "L".to_owned();
        name.append(digit_text(index));
        name
    } else if is_hsk {
        "L7 (OOV)".to_owned()
    } else {
        "L5 (beyond TOP)".to_owned()
    }
}

/// What is said of a text that is readable from the level with the given index on, or nowhere.
pub open spec fn verdict_text(is_hsk: bool, level: Option<usize>) -> Seq<char> {
    match level {
        None => if is_hsk {
            "No HSK level (extremely difficult / outside HSK scale)"@
        } else {
            "No TOP level (extremely difficult / outside TOP scale)"@
        },
        Some(index) => if index < dictionary_levels(is_hsk) {
            (if is_hsk {
                "HSK level "@
            } else {
                "TOP level "@
            }) + digit(index as int)
        } else if index > dictionary_levels(is_hsk) {
            "Unknown"@
        } else if is_hsk {
            "HSK level 7 (OOV - very difficult)"@
        } else {
            "TOP level 5 (beyond TOP - very difficult)"@
        },
    }
}

/// What is said of a text that is readable from the level with the given index on, or nowhere.
pub fn verdict(is_hsk: bool, level: Option<usize>) -> (r: String)
    ensures
        r@ == verdict_text(is_hsk, level),
{
    let known: usize = if is_hsk {
        6
    } else {
        4
    };
    match level {
        None => if is_hsk {
            "No HSK level (extremely difficult / outside HSK scale)".to_owned()
        } else {
            "No TOP level (extremely difficult / outside TOP scale)".to_owned()
        },
        Some(index) => if index < known {
            let mut name: String = if is_hsk {
                "HSK level ".to_owned()
            } else {
                "TOP level ".to_owned()
            };
            name.append(digit_text(index));
            name
        } else if index > known {
            "Unknown".to_owned()
        } else if is_hsk {
            "HSK level 7 (OOV - very difficult)".to_owned()
        } else {
            "TOP level 5 (beyond TOP - very difficult)".to_owned()
        },
    }
}

/// The mark of a level: whether the text is readable there.
pub fn readable_mark(label: u32) -> (r: &'static str)
    ensures
        r@ == (if label == 1 {
            "✓"@
        } else {
            "✗"@
        }),
{
    if label == 1 {
        "✓"
    } else {
        "✗"
    }
}

/// `r` is the index of the first label that is 1, or `None` where there is none.
pub open spec fn is_first_readable(labels: Seq<u32>, r: Option<usize>) -> bool {
    match r {
        Some(index) => index < labels.len() && labels[index as int] == 1 && (forall|i: int|
            0 <= i < index ==> labels[i] != 1),
        None => forall|i: int| 0 <= i < labels.len() ==> labels[i] != 1,
    }
}

/// A text with monotonic labels is readable exactly from its first readable level on.
pub proof fn law_readable_from_first(labels: Seq<u32>, first: usize, i: int)
    requires
        is_monotonic(labels),
        is_first_readable(labels, Some(first)),
        0 <= i < labels.len(),
    ensures
        labels[i] == 1 <==> i >= first,
{
}

/// Find the first level at which a text is readable.
pub fn first_readable(labels: &Vec<u32>) -> (r: Option<usize>)
    ensures
        is_first_readable(labels@, r),
{
    for i in 0..labels.len()
        invariant
            forall|j: int| 0 <= j < i ==> labels[j] != 1,
    {
        if labels[i] == 1 {
            return Some(i);
        }
    }
    None
}

/// A level that the dictionary has words for is called `L` and its number, which is one more than its
/// index; a level beyond them is called by what it stands for.
pub proof fn law_level_names(is_hsk: bool, index: int)
    requires
        0 <= index,
    ensures
        is_hsk && index < 6 || index < 4 ==> level_name(is_hsk, index) == seq![
            'L',
            (0x31 + index) as char,
        ],
        is_hsk && index >= 6 ==> level_name(is_hsk, index) == "L7 (OOV)"@,
        !is_hsk && index >= 4 ==> level_name(is_hsk, index) == "L5 (beyond TOP)"@,
{
    lemma_digit(index);
    reveal_strlit("L");
    if is_hsk && index < 6 || index < 4 {
        assert(level_name(is_hsk, index) =~= seq!['L', (0x31 + index) as char]);
    }
}

proof fn lemma_digit(index: int)
    ensures
        0 <= index < 6 ==> digit(index) == seq![(0x31 + index) as char],
{
    reveal_strlit("1");
    reveal_strlit("2");
    reveal_strlit("3");
    reveal_strlit("4");
    reveal_strlit("5");
    reveal_strlit("6");
    if 0 <= index < 6 {
        assert(digit(index) =~= seq![(0x31 + index) as char]);
    }
}

/// The verdict on a level that the dictionary has words for names the scale and the same number as
/// the name of the level; the level behind them, those further on, and none at all have verdicts of
/// their own.
pub proof fn law_verdicts(is_hsk: bool, index: usize)
    ensures
        is_hsk && index < 6 ==> verdict_text(is_hsk, Some(index)) == "HSK level "@ + level_name(
            is_hsk,
            index as int,
        ).skip(1),
        !is_hsk && index < 4 ==> verdict_text(is_hsk, Some(index)) == "TOP level "@ + level_name(
            is_hsk,
            index as int,
        ).skip(1),
        is_hsk && index == 6 ==> verdict_text(is_hsk, Some(index))
            == "HSK level 7 (OOV - very difficult)"@,
        !is_hsk && index == 4 ==> verdict_text(is_hsk, Some(index))
            == "TOP level 5 (beyond TOP - very difficult)"@,
        is_hsk && index > 6 || !is_hsk && index > 4 ==> verdict_text(is_hsk, Some(index))
            == "Unknown"@,
        is_hsk ==> verdict_text(is_hsk, None)
            == "No HSK level (extremely difficult / outside HSK scale)"@,
        !is_hsk ==> verdict_text(is_hsk, None)
            == "No TOP level (extremely difficult / outside TOP scale)"@,
{
    reveal_strlit("L");
    assert(("L"@ + digit(index as int)).skip(1) =~= digit(index as int));
}

/// The first readable level is the first place of a 1 among the labels.
pub proof fn law_first_readable(labels: Seq<u32>, r: Option<usize>)
    requires
        is_first_readable(labels, r),
    ensures
        r is None <==> !labels.contains(1u32),
        r matches Some(index) ==> index < labels.len() && labels[index as int] == 1
            && !labels.take(index as int).contains(1u32),
{
    if labels.contains(1u32) {
        let i = labels.index_of(1u32);
        assert(labels[i] == 1);
    }
    if let Some(index) = r {
        assert(labels.contains(labels[index as int]));
        let front = labels.take(index as int);
        if front.contains(1u32) {
            assert(labels[front.index_of(1u32)] == 1);
        }
    }
}

} // verus!
