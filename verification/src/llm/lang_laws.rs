//! The tables of languages agree with each other.

use vstd::prelude::*;

use crate::llm::lang::{ascii_lowercase, language_codes, language_names, listed_at};

verus! {

/// A table gives what stands beside a key in the first row with that key, and nothing where no
/// row has it.
pub proof fn law_first_row_counts(
    table: Seq<(&'static str, &'static str)>,
    key: Seq<char>,
    from: int,
    at: int,
)
    requires
        0 <= from <= at <= table.len(),
        forall|j: int| from <= j < at ==> (#[trigger] table[j]).0@ != key,
    ensures
        at < table.len() && table[at].0@ == key ==> listed_at(table, key, from) == Some(
            table[at].1@,
        ),
        at == table.len() ==> listed_at(table, key, from) is None,
    decreases at - from,
{
    if from < at {
        assert(table[from].0@ != key);
        law_first_row_counts(table, key, from + 1, at);
    }
}

/// The name of the `i`-th language, in lower case, stands beside its code at place `k`.
spec fn is_row(i: int, k: int) -> bool {
    language_names()[k].0@ == ascii_lowercase(language_codes()[i].1@) && language_names()[k].1@
        == language_codes()[i].0@
}

proof fn lemma_rows_a()
    ensures
        is_row(0, 0),
        is_row(1, 1),
        is_row(2, 3),
        is_row(3, 6),
        is_row(4, 10),
        is_row(5, 12),
        is_row(6, 15),
        is_row(7, 17),
        is_row(8, 19),
{
    let names = language_names();
    let codes = language_codes();
    assert(names[0].0@ == "english"@ && codes[0].1@ == "English"@);
    assert(ascii_lowercase("English"@) =~= "english"@) by {
        reveal_strlit("English");
        reveal_strlit("english");
    }
    assert(names[1].0@ == "german"@ && codes[1].1@ == "German"@);
    assert(ascii_lowercase("German"@) =~= "german"@) by {
        reveal_strlit("German");
        reveal_strlit("german");
    }
    assert(names[3].0@ == "french"@ && codes[2].1@ == "French"@);
    assert(ascii_lowercase("French"@) =~= "french"@) by {
        reveal_strlit("French");
        reveal_strlit("french");
    }
    assert(names[6].0@ == "spanish"@ && codes[3].1@ == "Spanish"@);
    assert(ascii_lowercase("Spanish"@) =~= "spanish"@) by {
        reveal_strlit("Spanish");
        reveal_strlit("spanish");
    }
    assert(names[10].0@ == "italian"@ && codes[4].1@ == "Italian"@);
    assert(ascii_lowercase("Italian"@) =~= "italian"@) by {
        reveal_strlit("Italian");
        reveal_strlit("italian");
    }
    assert(names[12].0@ == "portuguese"@ && codes[5].1@ == "Portuguese"@);
    assert(ascii_lowercase("Portuguese"@) =~= "portuguese"@) by {
        reveal_strlit("Portuguese");
        reveal_strlit("portuguese");
    }
    assert(names[15].0@ == "dutch"@ && codes[6].1@ == "Dutch"@);
    assert(ascii_lowercase("Dutch"@) =~= "dutch"@) by {
        reveal_strlit("Dutch");
        reveal_strlit("dutch");
    }
    assert(names[17].0@ == "polish"@ && codes[7].1@ == "Polish"@);
    assert(ascii_lowercase("Polish"@) =~= "polish"@) by {
        reveal_strlit("Polish");
        reveal_strlit("polish");
    }
    assert(names[19].0@ == "russian"@ && codes[8].1@ == "Russian"@);
    assert(ascii_lowercase("Russian"@) =~= "russian"@) by {
        reveal_strlit("Russian");
        reveal_strlit("russian");
    }
}

proof fn lemma_rows_b()
    ensures
        is_row(9, 23),
        is_row(10, 26),
        is_row(11, 29),
        is_row(12, 31),
        is_row(13, 33),
        is_row(14, 35),
        is_row(15, 37),
        is_row(16, 39),
        is_row(17, 42),
{
    let names = language_names();
    let codes = language_codes();
    assert(names[23].0@ == "ukrainian"@ && codes[9].1@ == "Ukrainian"@);
    assert(ascii_lowercase("Ukrainian"@) =~= "ukrainian"@) by {
        reveal_strlit("Ukrainian");
        reveal_strlit("ukrainian");
    }
    assert(names[26].0@ == "czech"@ && codes[10].1@ == "Czech"@);
    assert(ascii_lowercase("Czech"@) =~= "czech"@) by {
        reveal_strlit("Czech");
        reveal_strlit("czech");
    }
    assert(names[29].0@ == "swedish"@ && codes[11].1@ == "Swedish"@);
    assert(ascii_lowercase("Swedish"@) =~= "swedish"@) by {
        reveal_strlit("Swedish");
        reveal_strlit("swedish");
    }
    assert(names[31].0@ == "norwegian"@ && codes[12].1@ == "Norwegian"@);
    assert(ascii_lowercase("Norwegian"@) =~= "norwegian"@) by {
        reveal_strlit("Norwegian");
        reveal_strlit("norwegian");
    }
    assert(names[33].0@ == "danish"@ && codes[13].1@ == "Danish"@);
    assert(ascii_lowercase("Danish"@) =~= "danish"@) by {
        reveal_strlit("Danish");
        reveal_strlit("danish");
    }
    assert(names[35].0@ == "finnish"@ && codes[14].1@ == "Finnish"@);
    assert(ascii_lowercase("Finnish"@) =~= "finnish"@) by {
        reveal_strlit("Finnish");
        reveal_strlit("finnish");
    }
    assert(names[37].0@ == "greek"@ && codes[15].1@ == "Greek"@);
    assert(ascii_lowercase("Greek"@) =~= "greek"@) by {
        reveal_strlit("Greek");
        reveal_strlit("greek");
    }
    assert(names[39].0@ == "turkish"@ && codes[16].1@ == "Turkish"@);
    assert(ascii_lowercase("Turkish"@) =~= "turkish"@) by {
        reveal_strlit("Turkish");
        reveal_strlit("turkish");
    }
    assert(names[42].0@ == "arabic"@ && codes[17].1@ == "Arabic"@);
    assert(ascii_lowercase("Arabic"@) =~= "arabic"@) by {
        reveal_strlit("Arabic");
        reveal_strlit("arabic");
    }
}

proof fn lemma_rows_c()
    ensures
        is_row(18, 44),
        is_row(19, 46),
        is_row(20, 49),
        is_row(21, 51),
        is_row(22, 53),
        is_row(23, 55),
        is_row(24, 58),
        is_row(25, 60),
        is_row(26, 62),
{
    let names = language_names();
    let codes = language_codes();
    assert(names[44].0@ == "hebrew"@ && codes[18].1@ == "Hebrew"@);
    assert(ascii_lowercase("Hebrew"@) =~= "hebrew"@) by {
        reveal_strlit("Hebrew");
        reveal_strlit("hebrew");
    }
    assert(names[46].0@ == "chinese"@ && codes[19].1@ == "Chinese"@);
    assert(ascii_lowercase("Chinese"@) =~= "chinese"@) by {
        reveal_strlit("Chinese");
        reveal_strlit("chinese");
    }
    assert(names[49].0@ == "japanese"@ && codes[20].1@ == "Japanese"@);
    assert(ascii_lowercase("Japanese"@) =~= "japanese"@) by {
        reveal_strlit("Japanese");
        reveal_strlit("japanese");
    }
    assert(names[51].0@ == "korean"@ && codes[21].1@ == "Korean"@);
    assert(ascii_lowercase("Korean"@) =~= "korean"@) by {
        reveal_strlit("Korean");
        reveal_strlit("korean");
    }
    assert(names[53].0@ == "hindi"@ && codes[22].1@ == "Hindi"@);
    assert(ascii_lowercase("Hindi"@) =~= "hindi"@) by {
        reveal_strlit("Hindi");
        reveal_strlit("hindi");
    }
    assert(names[55].0@ == "vietnamese"@ && codes[23].1@ == "Vietnamese"@);
    assert(ascii_lowercase("Vietnamese"@) =~= "vietnamese"@) by {
        reveal_strlit("Vietnamese");
        reveal_strlit("vietnamese");
    }
    assert(names[58].0@ == "thai"@ && codes[24].1@ == "Thai"@);
    assert(ascii_lowercase("Thai"@) =~= "thai"@) by {
        reveal_strlit("Thai");
        reveal_strlit("thai");
    }
    assert(names[60].0@ == "indonesian"@ && codes[25].1@ == "Indonesian"@);
    assert(ascii_lowercase("Indonesian"@) =~= "indonesian"@) by {
        reveal_strlit("Indonesian");
        reveal_strlit("indonesian");
    }
    assert(names[62].0@ == "romanian"@ && codes[26].1@ == "Romanian"@);
    assert(ascii_lowercase("Romanian"@) =~= "romanian"@) by {
        reveal_strlit("Romanian");
        reveal_strlit("romanian");
    }
}

proof fn lemma_rows_d()
    ensures
        is_row(27, 65),
        is_row(28, 67),
        is_row(29, 69),
        is_row(30, 72),
        is_row(31, 74),
        is_row(32, 77),
{
    let names = language_names();
    let codes = language_codes();
    assert(names[65].0@ == "hungarian"@ && codes[27].1@ == "Hungarian"@);
    assert(ascii_lowercase("Hungarian"@) =~= "hungarian"@) by {
        reveal_strlit("Hungarian");
        reveal_strlit("hungarian");
    }
    assert(names[67].0@ == "bulgarian"@ && codes[28].1@ == "Bulgarian"@);
    assert(ascii_lowercase("Bulgarian"@) =~= "bulgarian"@) by {
        reveal_strlit("Bulgarian");
        reveal_strlit("bulgarian");
    }
    assert(names[69].0@ == "serbian"@ && codes[29].1@ == "Serbian"@);
    assert(ascii_lowercase("Serbian"@) =~= "serbian"@) by {
        reveal_strlit("Serbian");
        reveal_strlit("serbian");
    }
    assert(names[72].0@ == "croatian"@ && codes[30].1@ == "Croatian"@);
    assert(ascii_lowercase("Croatian"@) =~= "croatian"@) by {
        reveal_strlit("Croatian");
        reveal_strlit("croatian");
    }
    assert(names[74].0@ == "slovenian"@ && codes[31].1@ == "Slovenian"@);
    assert(ascii_lowercase("Slovenian"@) =~= "slovenian"@) by {
        reveal_strlit("Slovenian");
        reveal_strlit("slovenian");
    }
    assert(names[77].0@ == "slovak"@ && codes[32].1@ == "Slovak"@);
    assert(ascii_lowercase("Slovak"@) =~= "slovak"@) by {
        reveal_strlit("Slovak");
        reveal_strlit("slovak");
    }
}

/// Every language with a code is known by its name in English.
pub proof fn law_english_names_are_known(i: int)
    requires
        0 <= i < language_codes().len(),
    ensures
        exists|k: int|
            0 <= k < language_names().len() && (#[trigger] language_names()[k]).0@
                == ascii_lowercase(language_codes()[i].1@) && language_names()[k].1@
                == language_codes()[i].0@,
{
    lemma_rows_a();
    lemma_rows_b();
    lemma_rows_c();
    lemma_rows_d();
    assert(language_codes().len() == 33);
    assert(language_names().len() == 80);
    assert(i == 0 ==> is_row(i, 0));
    assert(i == 1 ==> is_row(i, 1));
    assert(i == 2 ==> is_row(i, 3));
    assert(i == 3 ==> is_row(i, 6));
    assert(i == 4 ==> is_row(i, 10));
    assert(i == 5 ==> is_row(i, 12));
    assert(i == 6 ==> is_row(i, 15));
    assert(i == 7 ==> is_row(i, 17));
    assert(i == 8 ==> is_row(i, 19));
    assert(i == 9 ==> is_row(i, 23));
    assert(i == 10 ==> is_row(i, 26));
    assert(i == 11 ==> is_row(i, 29));
    assert(i == 12 ==> is_row(i, 31));
    assert(i == 13 ==> is_row(i, 33));
    assert(i == 14 ==> is_row(i, 35));
    assert(i == 15 ==> is_row(i, 37));
    assert(i == 16 ==> is_row(i, 39));
    assert(i == 17 ==> is_row(i, 42));
    assert(i == 18 ==> is_row(i, 44));
    assert(i == 19 ==> is_row(i, 46));
    assert(i == 20 ==> is_row(i, 49));
    assert(i == 21 ==> is_row(i, 51));
    assert(i == 22 ==> is_row(i, 53));
    assert(i == 23 ==> is_row(i, 55));
    assert(i == 24 ==> is_row(i, 58));
    assert(i == 25 ==> is_row(i, 60));
    assert(i == 26 ==> is_row(i, 62));
    assert(i == 27 ==> is_row(i, 65));
    assert(i == 28 ==> is_row(i, 67));
    assert(i == 29 ==> is_row(i, 69));
    assert(i == 30 ==> is_row(i, 72));
    assert(i == 31 ==> is_row(i, 74));
    assert(i == 32 ==> is_row(i, 77));
    let k = choose|k: int| 0 <= k < language_names().len() && is_row(i, k);
    assert(language_names()[k].1@ == language_codes()[i].0@);
}

/// The names of one language stand together, its name in English first.
pub proof fn law_names_of_a_language_stand_together(k: int)
    requires
        0 <= k < language_names().len(),
    ensures
        k > 0 && language_names()[k].1@ == language_names()[k - 1].1@ || exists|i: int|
            0 <= i < language_codes().len() && (#[trigger] language_codes()[i]).0@
                == language_names()[k].1@ && ascii_lowercase(language_codes()[i].1@)
                == language_names()[k].0@,
{
    lemma_rows_a();
    lemma_rows_b();
    lemma_rows_c();
    lemma_rows_d();
    let names = language_names();
    assert(language_codes().len() == 33);
    assert(names.len() == 80);
    assert(k == 0 ==> is_row(0, k));
    assert(k == 1 ==> is_row(1, k));
    assert(names[2].1@ == names[1].1@);
    assert(k == 3 ==> is_row(2, k));
    assert(names[4].1@ == names[3].1@);
    assert(names[5].1@ == names[4].1@);
    assert(k == 6 ==> is_row(3, k));
    assert(names[7].1@ == names[6].1@);
    assert(names[8].1@ == names[7].1@);
    assert(names[9].1@ == names[8].1@);
    assert(k == 10 ==> is_row(4, k));
    assert(names[11].1@ == names[10].1@);
    assert(k == 12 ==> is_row(5, k));
    assert(names[13].1@ == names[12].1@);
    assert(names[14].1@ == names[13].1@);
    assert(k == 15 ==> is_row(6, k));
    assert(names[16].1@ == names[15].1@);
    assert(k == 17 ==> is_row(7, k));
    assert(names[18].1@ == names[17].1@);
    assert(k == 19 ==> is_row(8, k));
    assert(names[20].1@ == names[19].1@);
    assert(names[21].1@ == names[20].1@);
    assert(names[22].1@ == names[21].1@);
    assert(k == 23 ==> is_row(9, k));
    assert(names[24].1@ == names[23].1@);
    assert(names[25].1@ == names[24].1@);
    assert(k == 26 ==> is_row(10, k));
    assert(names[27].1@ == names[26].1@);
    assert(names[28].1@ == names[27].1@);
    assert(k == 29 ==> is_row(11, k));
    assert(names[30].1@ == names[29].1@);
    assert(k == 31 ==> is_row(12, k));
    assert(names[32].1@ == names[31].1@);
    assert(k == 33 ==> is_row(13, k));
    assert(names[34].1@ == names[33].1@);
    assert(k == 35 ==> is_row(14, k));
    assert(names[36].1@ == names[35].1@);
    assert(k == 37 ==> is_row(15, k));
    assert(names[38].1@ == names[37].1@);
    assert(k == 39 ==> is_row(16, k));
    assert(names[40].1@ == names[39].1@);
    assert(names[41].1@ == names[40].1@);
    assert(k == 42 ==> is_row(17, k));
    assert(names[43].1@ == names[42].1@);
    assert(k == 44 ==> is_row(18, k));
    assert(names[45].1@ == names[44].1@);
    assert(k == 46 ==> is_row(19, k));
    assert(names[47].1@ == names[46].1@);
    assert(names[48].1@ == names[47].1@);
    assert(k == 49 ==> is_row(20, k));
    assert(names[50].1@ == names[49].1@);
    assert(k == 51 ==> is_row(21, k));
    assert(names[52].1@ == names[51].1@);
    assert(k == 53 ==> is_row(22, k));
    assert(names[54].1@ == names[53].1@);
    assert(k == 55 ==> is_row(23, k));
    assert(names[56].1@ == names[55].1@);
    assert(names[57].1@ == names[56].1@);
    assert(k == 58 ==> is_row(24, k));
    assert(names[59].1@ == names[58].1@);
    assert(k == 60 ==> is_row(25, k));
    assert(names[61].1@ == names[60].1@);
    assert(k == 62 ==> is_row(26, k));
    assert(names[63].1@ == names[62].1@);
    assert(names[64].1@ == names[63].1@);
    assert(k == 65 ==> is_row(27, k));
    assert(names[66].1@ == names[65].1@);
    assert(k == 67 ==> is_row(28, k));
    assert(names[68].1@ == names[67].1@);
    assert(k == 69 ==> is_row(29, k));
    assert(names[70].1@ == names[69].1@);
    assert(names[71].1@ == names[70].1@);
    assert(k == 72 ==> is_row(30, k));
    assert(names[73].1@ == names[72].1@);
    assert(k == 74 ==> is_row(31, k));
    assert(names[75].1@ == names[74].1@);
    assert(names[76].1@ == names[75].1@);
    assert(k == 77 ==> is_row(32, k));
    assert(names[78].1@ == names[77].1@);
    assert(names[79].1@ == names[78].1@);
    if k == 0 || names[k].1@ != names[k - 1].1@ {
        let i = choose|i: int| 0 <= i < language_codes().len() && is_row(i, k);
        assert(language_codes()[i].0@ == names[k].1@);
    }
}

} // verus!
