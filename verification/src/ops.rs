//! Content-stream operators by the part they play in segmenting and
//! filtering a stream.

use vstd::prelude::*;
use crate::text::{chars_equal, chars_of};

verus! {

/// The part an operator plays in a content stream.
#[derive(Clone, Copy, Debug, PartialEq, Eq, Structural)]
pub enum OpClass {
    /// `BT`
    BeginText,
    /// `ET`
    EndText,
    /// `m l c v y re h`
    PathBuild,
    /// `S s f F f* B B* b b*`
    Paint,
    /// `W W*`
    Clip,
    /// `n`
    EndPath,
    /// `Do`
    XObject,
    /// `q`
    Save,
    /// `Q`
    Restore,
    /// `cm`
    Concat,
    /// Colour and line style: `CS cs SC SCN sc scn G g RG rg K k w J j M d ri i gs`
    Style,
    /// Marked content: `BMC BDC EMC MP DP`
    Marked,
    /// Text showing: `Tj TJ ' "`
    ShowText,
    /// `Tf`
    SetFont,
    /// `Ts Tz TL Tw Tc Tr`
    TextParam,
    /// `Tm`
    TextMatrix,
    /// `Td TD`
    TextMove,
    /// `T*`
    NextLine,
    /// Any other operator.
    Other,
}

/// The class of the operator named `name`.
pub open spec fn class_of(name: Seq<char>) -> OpClass {
    if name == "BT"@ {
        OpClass::BeginText
    } else if name == "ET"@ {
        OpClass::EndText
    } else if (name == "m"@
        || name == "l"@
        || name == "c"@
        || name == "v"@
        || name == "y"@
        || name == "re"@
        || name == "h"@) {
        OpClass::PathBuild
    } else if (name == "S"@
        || name == "s"@
        || name == "f"@
        || name == "F"@
        || name == "f*"@
        || name == "B"@
        || name == "B*"@
        || name == "b"@
        || name == "b*"@) {
        OpClass::Paint
    } else if (name == "W"@ || name == "W*"@) {
        OpClass::Clip
    } else if name == "n"@ {
        OpClass::EndPath
    } else if name == "Do"@ {
        OpClass::XObject
    } else if name == "q"@ {
        OpClass::Save
    } else if name == "Q"@ {
        OpClass::Restore
    } else if name == "cm"@ {
        OpClass::Concat
    } else if (name == "CS"@
        || name == "cs"@
        || name == "SC"@
        || name == "SCN"@
        || name == "sc"@
        || name == "scn"@
        || name == "G"@
        || name == "g"@
        || name == "RG"@
        || name == "rg"@
        || name == "K"@
        || name == "k"@
        || name == "w"@
        || name == "J"@
        || name == "j"@
        || name == "M"@
        || name == "d"@
        || name == "ri"@
        || name == "i"@
        || name == "gs"@) {
        OpClass::Style
    } else if (name == "BMC"@
        || name == "BDC"@
        || name == "EMC"@
        || name == "MP"@
        || name == "DP"@) {
        OpClass::Marked
    } else if (name == "Tj"@ || name == "TJ"@ || name == "'"@ || name == "\""@) {
        OpClass::ShowText
    } else if name == "Tf"@ {
        OpClass::SetFont
    } else if (name == "Ts"@
        || name == "Tz"@
        || name == "TL"@
        || name == "Tw"@
        || name == "Tc"@
        || name == "Tr"@) {
        OpClass::TextParam
    } else if name == "Tm"@ {
        OpClass::TextMatrix
    } else if (name == "Td"@ || name == "TD"@) {
        OpClass::TextMove
    } else if name == "T*"@ {
        OpClass::NextLine
    } else {
        OpClass::Other
    }
}

fn is_name(name: &[char], lit: &str) -> (r: bool)
    ensures
        r == (name@ == lit@),
{
    let l = chars_of(lit);
    chars_equal(name, &l)
}

/// The class of an operator, from its name.
pub fn classify(name: &str) -> (c: OpClass)
    ensures
        c == class_of(name@),
        (c == OpClass::PathBuild) <==> (
            name@ == seq!['m']
            || name@ == seq!['l']
            || name@ == seq!['c']
            || name@ == seq!['v']
            || name@ == seq!['y']
            || name@ == seq!['r', 'e']
            || name@ == seq!['h']
        ),
        (c == OpClass::Paint) <==> (
            name@ == seq!['S']
            || name@ == seq!['s']
            || name@ == seq!['f']
            || name@ == seq!['F']
            || name@ == seq!['f', '*']
            || name@ == seq!['B']
            || name@ == seq!['B', '*']
            || name@ == seq!['b']
            || name@ == seq!['b', '*']
        ),
        (c == OpClass::Clip) <==> (name@ == seq!['W'] || name@ == seq!['W', '*']),
        (c == OpClass::EndPath) <==> (name@ == seq!['n']),
{
    proof {
        lemma_operator_table(name@);
    }
    let n = chars_of(name);
    if is_name(&n, "BT") {
        OpClass::BeginText
    } else if is_name(&n, "ET") {
        OpClass::EndText
    } else if (is_name(&n, "m")
        || is_name(&n, "l")
        || is_name(&n, "c")
        || is_name(&n, "v")
        || is_name(&n, "y")
        || is_name(&n, "re")
        || is_name(&n, "h")) {
        OpClass::PathBuild
    } else if (is_name(&n, "S")
        || is_name(&n, "s")
        || is_name(&n, "f")
        || is_name(&n, "F")
        || is_name(&n, "f*")
        || is_name(&n, "B")
        || is_name(&n, "B*")
        || is_name(&n, "b")
        || is_name(&n, "b*")) {
        OpClass::Paint
    } else if (is_name(&n, "W") || is_name(&n, "W*")) {
        OpClass::Clip
    } else if is_name(&n, "n") {
        OpClass::EndPath
    } else if is_name(&n, "Do") {
        OpClass::XObject
    } else if is_name(&n, "q") {
        OpClass::Save
    } else if is_name(&n, "Q") {
        OpClass::Restore
    } else if is_name(&n, "cm") {
        OpClass::Concat
    } else if (is_name(&n, "CS")
        || is_name(&n, "cs")
        || is_name(&n, "SC")
        || is_name(&n, "SCN")
        || is_name(&n, "sc")
        || is_name(&n, "scn")
        || is_name(&n, "G")
        || is_name(&n, "g")
        || is_name(&n, "RG")
        || is_name(&n, "rg")
        || is_name(&n, "K")
        || is_name(&n, "k")
        || is_name(&n, "w")
        || is_name(&n, "J")
        || is_name(&n, "j")
        || is_name(&n, "M")
        || is_name(&n, "d")
        || is_name(&n, "ri")
        || is_name(&n, "i")
        || is_name(&n, "gs")) {
        OpClass::Style
    } else if (is_name(&n, "BMC")
        || is_name(&n, "BDC")
        || is_name(&n, "EMC")
        || is_name(&n, "MP")
        || is_name(&n, "DP")) {
        OpClass::Marked
    } else if (is_name(&n, "Tj") || is_name(&n, "TJ") || is_name(&n, "'") || is_name(&n, "\"")) {
        OpClass::ShowText
    } else if is_name(&n, "Tf") {
        OpClass::SetFont
    } else if (is_name(&n, "Ts")
        || is_name(&n, "Tz")
        || is_name(&n, "TL")
        || is_name(&n, "Tw")
        || is_name(&n, "Tc")
        || is_name(&n, "Tr")) {
        OpClass::TextParam
    } else if is_name(&n, "Tm") {
        OpClass::TextMatrix
    } else if (is_name(&n, "Td") || is_name(&n, "TD")) {
        OpClass::TextMove
    } else if is_name(&n, "T*") {
        OpClass::NextLine
    } else {
        OpClass::Other
    }
}

/// The characters of the operator names that `class_of` compares with.
proof fn lemma_operator_names()
    ensures
        "BT"@.len() == 2 && "BT"@[0] == 'B' && "BT"@[1] == 'T',
        "ET"@.len() == 2 && "ET"@[0] == 'E' && "ET"@[1] == 'T',
        "m"@.len() == 1 && "m"@[0] == 'm',
        "l"@.len() == 1 && "l"@[0] == 'l',
        "c"@.len() == 1 && "c"@[0] == 'c',
        "v"@.len() == 1 && "v"@[0] == 'v',
        "y"@.len() == 1 && "y"@[0] == 'y',
        "re"@.len() == 2 && "re"@[0] == 'r' && "re"@[1] == 'e',
        "h"@.len() == 1 && "h"@[0] == 'h',
        "S"@.len() == 1 && "S"@[0] == 'S',
        "s"@.len() == 1 && "s"@[0] == 's',
        "f"@.len() == 1 && "f"@[0] == 'f',
        "F"@.len() == 1 && "F"@[0] == 'F',
        "f*"@.len() == 2 && "f*"@[0] == 'f' && "f*"@[1] == '*',
        "B"@.len() == 1 && "B"@[0] == 'B',
        "B*"@.len() == 2 && "B*"@[0] == 'B' && "B*"@[1] == '*',
        "b"@.len() == 1 && "b"@[0] == 'b',
        "b*"@.len() == 2 && "b*"@[0] == 'b' && "b*"@[1] == '*',
        "W"@.len() == 1 && "W"@[0] == 'W',
        "W*"@.len() == 2 && "W*"@[0] == 'W' && "W*"@[1] == '*',
        "n"@.len() == 1 && "n"@[0] == 'n',
        "Do"@.len() == 2 && "Do"@[0] == 'D' && "Do"@[1] == 'o',
        "q"@.len() == 1 && "q"@[0] == 'q',
        "Q"@.len() == 1 && "Q"@[0] == 'Q',
        "cm"@.len() == 2 && "cm"@[0] == 'c' && "cm"@[1] == 'm',
        "CS"@.len() == 2 && "CS"@[0] == 'C' && "CS"@[1] == 'S',
        "cs"@.len() == 2 && "cs"@[0] == 'c' && "cs"@[1] == 's',
        "SC"@.len() == 2 && "SC"@[0] == 'S' && "SC"@[1] == 'C',
        "SCN"@.len() == 3 && "SCN"@[0] == 'S' && "SCN"@[1] == 'C' && "SCN"@[2] == 'N',
        "sc"@.len() == 2 && "sc"@[0] == 's' && "sc"@[1] == 'c',
        "scn"@.len() == 3 && "scn"@[0] == 's' && "scn"@[1] == 'c' && "scn"@[2] == 'n',
        "G"@.len() == 1 && "G"@[0] == 'G',
        "g"@.len() == 1 && "g"@[0] == 'g',
        "RG"@.len() == 2 && "RG"@[0] == 'R' && "RG"@[1] == 'G',
        "rg"@.len() == 2 && "rg"@[0] == 'r' && "rg"@[1] == 'g',
        "K"@.len() == 1 && "K"@[0] == 'K',
        "k"@.len() == 1 && "k"@[0] == 'k',
        "w"@.len() == 1 && "w"@[0] == 'w',
        "J"@.len() == 1 && "J"@[0] == 'J',
        "j"@.len() == 1 && "j"@[0] == 'j',
        "M"@.len() == 1 && "M"@[0] == 'M',
        "d"@.len() == 1 && "d"@[0] == 'd',
        "ri"@.len() == 2 && "ri"@[0] == 'r' && "ri"@[1] == 'i',
        "i"@.len() == 1 && "i"@[0] == 'i',
        "gs"@.len() == 2 && "gs"@[0] == 'g' && "gs"@[1] == 's',
        "BMC"@.len() == 3 && "BMC"@[0] == 'B' && "BMC"@[1] == 'M' && "BMC"@[2] == 'C',
        "BDC"@.len() == 3 && "BDC"@[0] == 'B' && "BDC"@[1] == 'D' && "BDC"@[2] == 'C',
        "EMC"@.len() == 3 && "EMC"@[0] == 'E' && "EMC"@[1] == 'M' && "EMC"@[2] == 'C',
        "MP"@.len() == 2 && "MP"@[0] == 'M' && "MP"@[1] == 'P',
        "DP"@.len() == 2 && "DP"@[0] == 'D' && "DP"@[1] == 'P',
        "Tj"@.len() == 2 && "Tj"@[0] == 'T' && "Tj"@[1] == 'j',
        "TJ"@.len() == 2 && "TJ"@[0] == 'T' && "TJ"@[1] == 'J',
        "'"@.len() == 1 && "'"@[0] == '\'',
        "\""@.len() == 1 && "\""@[0] == '"',
        "Tf"@.len() == 2 && "Tf"@[0] == 'T' && "Tf"@[1] == 'f',
        "Ts"@.len() == 2 && "Ts"@[0] == 'T' && "Ts"@[1] == 's',
        "Tz"@.len() == 2 && "Tz"@[0] == 'T' && "Tz"@[1] == 'z',
        "TL"@.len() == 2 && "TL"@[0] == 'T' && "TL"@[1] == 'L',
        "Tw"@.len() == 2 && "Tw"@[0] == 'T' && "Tw"@[1] == 'w',
        "Tc"@.len() == 2 && "Tc"@[0] == 'T' && "Tc"@[1] == 'c',
        "Tr"@.len() == 2 && "Tr"@[0] == 'T' && "Tr"@[1] == 'r',
        "Tm"@.len() == 2 && "Tm"@[0] == 'T' && "Tm"@[1] == 'm',
        "Td"@.len() == 2 && "Td"@[0] == 'T' && "Td"@[1] == 'd',
        "TD"@.len() == 2 && "TD"@[0] == 'T' && "TD"@[1] == 'D',
        "T*"@.len() == 2 && "T*"@[0] == 'T' && "T*"@[1] == '*',
        "m"@ == seq!['m'],
        "l"@ == seq!['l'],
        "c"@ == seq!['c'],
        "v"@ == seq!['v'],
        "y"@ == seq!['y'],
        "re"@ == seq!['r', 'e'],
        "h"@ == seq!['h'],
        "S"@ == seq!['S'],
        "s"@ == seq!['s'],
        "f"@ == seq!['f'],
        "F"@ == seq!['F'],
        "f*"@ == seq!['f', '*'],
        "B"@ == seq!['B'],
        "B*"@ == seq!['B', '*'],
        "b"@ == seq!['b'],
        "b*"@ == seq!['b', '*'],
        "W"@ == seq!['W'],
        "W*"@ == seq!['W', '*'],
        "n"@ == seq!['n'],
        "BT"@ == seq!['B', 'T'],
        "ET"@ == seq!['E', 'T'],
        "Do"@ == seq!['D', 'o'],
        "Tj"@ == seq!['T', 'j'],
        "TJ"@ == seq!['T', 'J'],
        "'"@ == seq!['\''],
        "\""@ == seq!['"'],
        "q"@ == seq!['q'],
        "Q"@ == seq!['Q'],
        "cm"@ == seq!['c', 'm'],
{
    reveal_strlit("BT");
    reveal_strlit("ET");
    reveal_strlit("m");
    reveal_strlit("l");
    reveal_strlit("c");
    reveal_strlit("v");
    reveal_strlit("y");
    reveal_strlit("re");
    reveal_strlit("h");
    reveal_strlit("S");
    reveal_strlit("s");
    reveal_strlit("f");
    reveal_strlit("F");
    reveal_strlit("f*");
    reveal_strlit("B");
    reveal_strlit("B*");
    reveal_strlit("b");
    reveal_strlit("b*");
    reveal_strlit("W");
    reveal_strlit("W*");
    reveal_strlit("n");
    reveal_strlit("Do");
    reveal_strlit("q");
    reveal_strlit("Q");
    reveal_strlit("cm");
    reveal_strlit("CS");
    reveal_strlit("cs");
    reveal_strlit("SC");
    reveal_strlit("SCN");
    reveal_strlit("sc");
    reveal_strlit("scn");
    reveal_strlit("G");
    reveal_strlit("g");
    reveal_strlit("RG");
    reveal_strlit("rg");
    reveal_strlit("K");
    reveal_strlit("k");
    reveal_strlit("w");
    reveal_strlit("J");
    reveal_strlit("j");
    reveal_strlit("M");
    reveal_strlit("d");
    reveal_strlit("ri");
    reveal_strlit("i");
    reveal_strlit("gs");
    reveal_strlit("BMC");
    reveal_strlit("BDC");
    reveal_strlit("EMC");
    reveal_strlit("MP");
    reveal_strlit("DP");
    reveal_strlit("Tj");
    reveal_strlit("TJ");
    reveal_strlit("'");
    reveal_strlit("\"");
    reveal_strlit("Tf");
    reveal_strlit("Ts");
    reveal_strlit("Tz");
    reveal_strlit("TL");
    reveal_strlit("Tw");
    reveal_strlit("Tc");
    reveal_strlit("Tr");
    reveal_strlit("Tm");
    reveal_strlit("Td");
    reveal_strlit("TD");
    reveal_strlit("T*");
    assert("m"@ =~= seq!['m']);
    assert("l"@ =~= seq!['l']);
    assert("c"@ =~= seq!['c']);
    assert("v"@ =~= seq!['v']);
    assert("y"@ =~= seq!['y']);
    assert("re"@ =~= seq!['r', 'e']);
    assert("h"@ =~= seq!['h']);
    assert("S"@ =~= seq!['S']);
    assert("s"@ =~= seq!['s']);
    assert("f"@ =~= seq!['f']);
    assert("F"@ =~= seq!['F']);
    assert("f*"@ =~= seq!['f', '*']);
    assert("B"@ =~= seq!['B']);
    assert("B*"@ =~= seq!['B', '*']);
    assert("b"@ =~= seq!['b']);
    assert("b*"@ =~= seq!['b', '*']);
    assert("W"@ =~= seq!['W']);
    assert("W*"@ =~= seq!['W', '*']);
    assert("n"@ =~= seq!['n']);
    assert("BT"@ =~= seq!['B', 'T']);
    assert("ET"@ =~= seq!['E', 'T']);
    assert("Do"@ =~= seq!['D', 'o']);
    assert("Tj"@ =~= seq!['T', 'j']);
    assert("TJ"@ =~= seq!['T', 'J']);
    assert("'"@ =~= seq!['\'']);
    assert("\""@ =~= seq!['"']);
    assert("q"@ =~= seq!['q']);
    assert("Q"@ =~= seq!['Q']);
    assert("cm"@ =~= seq!['c', 'm']);
}

proof fn lemma_table_path_build(name: Seq<char>)
    ensures
        (class_of(name) == OpClass::PathBuild) <==> (
            name == seq!['m']
            || name == seq!['l']
            || name == seq!['c']
            || name == seq!['v']
            || name == seq!['y']
            || name == seq!['r', 'e']
            || name == seq!['h']
        ),
{
    lemma_operator_names();
    if name.len() >= 1 {
        assert(name[0] == name[0]);
    }
    if name.len() >= 2 {
        assert(name[1] == name[1]);
    }
    if name.len() >= 3 {
        assert(name[2] == name[2]);
    }
}

proof fn lemma_table_paint(name: Seq<char>)
    ensures
        (class_of(name) == OpClass::Paint) <==> (
            name == seq!['S']
            || name == seq!['s']
            || name == seq!['f']
            || name == seq!['F']
            || name == seq!['f', '*']
            || name == seq!['B']
            || name == seq!['B', '*']
            || name == seq!['b']
            || name == seq!['b', '*']
        ),
{
    lemma_operator_names();
    if name.len() >= 1 {
        assert(name[0] == name[0]);
    }
    if name.len() >= 2 {
        assert(name[1] == name[1]);
    }
    if name.len() >= 3 {
        assert(name[2] == name[2]);
    }
}

proof fn lemma_table_clip(name: Seq<char>)
    ensures
        (class_of(name) == OpClass::Clip) <==> (name == seq!['W'] || name == seq!['W', '*']),
{
    lemma_operator_names();
    if name.len() >= 1 {
        assert(name[0] == name[0]);
    }
    if name.len() >= 2 {
        assert(name[1] == name[1]);
    }
    if name.len() >= 3 {
        assert(name[2] == name[2]);
    }
}

proof fn lemma_table_end_path(name: Seq<char>)
    ensures
        (class_of(name) == OpClass::EndPath) <==> (name == seq!['n']),
{
    lemma_operator_names();
    if name.len() >= 1 {
        assert(name[0] == name[0]);
    }
    if name.len() >= 2 {
        assert(name[1] == name[1]);
    }
    if name.len() >= 3 {
        assert(name[2] == name[2]);
    }
}

proof fn lemma_table_begin_text(name: Seq<char>)
    ensures
        (class_of(name) == OpClass::BeginText) <==> (name == seq!['B', 'T']),
{
    lemma_operator_names();
    if name.len() >= 1 {
        assert(name[0] == name[0]);
    }
    if name.len() >= 2 {
        assert(name[1] == name[1]);
    }
    if name.len() >= 3 {
        assert(name[2] == name[2]);
    }
}

proof fn lemma_table_end_text(name: Seq<char>)
    ensures
        (class_of(name) == OpClass::EndText) <==> (name == seq!['E', 'T']),
{
    lemma_operator_names();
    if name.len() >= 1 {
        assert(name[0] == name[0]);
    }
    if name.len() >= 2 {
        assert(name[1] == name[1]);
    }
    if name.len() >= 3 {
        assert(name[2] == name[2]);
    }
}

proof fn lemma_table_x_object(name: Seq<char>)
    ensures
        (class_of(name) == OpClass::XObject) <==> (name == seq!['D', 'o']),
{
    lemma_operator_names();
    if name.len() >= 1 {
        assert(name[0] == name[0]);
    }
    if name.len() >= 2 {
        assert(name[1] == name[1]);
    }
    if name.len() >= 3 {
        assert(name[2] == name[2]);
    }
}

proof fn lemma_table_show_text(name: Seq<char>)
    ensures
        (class_of(name) == OpClass::ShowText) <==> (
            name == seq!['T', 'j']
            || name == seq!['T', 'J']
            || name == seq!['\'']
            || name == seq!['"']
        ),
{
    lemma_operator_names();
    if name.len() >= 1 {
        assert(name[0] == name[0]);
    }
    if name.len() >= 2 {
        assert(name[1] == name[1]);
    }
    if name.len() >= 3 {
        assert(name[2] == name[2]);
    }
}

proof fn lemma_table_save(name: Seq<char>)
    ensures
        (class_of(name) == OpClass::Save) <==> (name == seq!['q']),
{
    lemma_operator_names();
    if name.len() >= 1 {
        assert(name[0] == name[0]);
    }
    if name.len() >= 2 {
        assert(name[1] == name[1]);
    }
    if name.len() >= 3 {
        assert(name[2] == name[2]);
    }
}

proof fn lemma_table_restore(name: Seq<char>)
    ensures
        (class_of(name) == OpClass::Restore) <==> (name == seq!['Q']),
{
    lemma_operator_names();
    if name.len() >= 1 {
        assert(name[0] == name[0]);
    }
    if name.len() >= 2 {
        assert(name[1] == name[1]);
    }
    if name.len() >= 3 {
        assert(name[2] == name[2]);
    }
}

proof fn lemma_table_concat(name: Seq<char>)
    ensures
        (class_of(name) == OpClass::Concat) <==> (name == seq!['c', 'm']),
{
    lemma_operator_names();
    if name.len() >= 1 {
        assert(name[0] == name[0]);
    }
    if name.len() >= 2 {
        assert(name[1] == name[1]);
    }
    if name.len() >= 3 {
        assert(name[2] == name[2]);
    }
}

/// The PDF operators of each class that segmenting depends on: path
/// construction is exactly `m l c v y re h`, painting exactly
/// `S s f F f* B B* b b*`, clipping `W W*`, ending a path `n`, text blocks
/// `BT` and `ET`, XObjects `Do`, text showing `Tj TJ ' "`, and saving,
/// restoring and changing the transform `q Q cm`.
pub proof fn lemma_operator_table(name: Seq<char>)
    ensures
        (class_of(name) == OpClass::PathBuild) <==> (
            name == seq!['m']
            || name == seq!['l']
            || name == seq!['c']
            || name == seq!['v']
            || name == seq!['y']
            || name == seq!['r', 'e']
            || name == seq!['h']
        ),
        (class_of(name) == OpClass::Paint) <==> (
            name == seq!['S']
            || name == seq!['s']
            || name == seq!['f']
            || name == seq!['F']
            || name == seq!['f', '*']
            || name == seq!['B']
            || name == seq!['B', '*']
            || name == seq!['b']
            || name == seq!['b', '*']
        ),
        (class_of(name) == OpClass::Clip) <==> (name == seq!['W'] || name == seq!['W', '*']),
        (class_of(name) == OpClass::EndPath) <==> (name == seq!['n']),
        (class_of(name) == OpClass::BeginText) <==> (name == seq!['B', 'T']),
        (class_of(name) == OpClass::EndText) <==> (name == seq!['E', 'T']),
        (class_of(name) == OpClass::XObject) <==> (name == seq!['D', 'o']),
        (class_of(name) == OpClass::ShowText) <==> (
            name == seq!['T', 'j']
            || name == seq!['T', 'J']
            || name == seq!['\'']
            || name == seq!['"']
        ),
        (class_of(name) == OpClass::Save) <==> (name == seq!['q']),
        (class_of(name) == OpClass::Restore) <==> (name == seq!['Q']),
        (class_of(name) == OpClass::Concat) <==> (name == seq!['c', 'm']),
{
    lemma_table_path_build(name);
    lemma_table_paint(name);
    lemma_table_clip(name);
    lemma_table_end_path(name);
    lemma_table_begin_text(name);
    lemma_table_end_text(name);
    lemma_table_x_object(name);
    lemma_table_show_text(name);
    lemma_table_save(name);
    lemma_table_restore(name);
    lemma_table_concat(name);
}

} // verus!
