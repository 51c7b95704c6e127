use vstd::prelude::*;

use crate::table::{LangSnippetTable, SnippetSet};

verus! {

/// The built-in snippet definitions bundled with the program.
pub open spec fn spec_builtin_table() -> Map<Seq<char>, Map<Seq<char>, Seq<char>>> {
    Map::<Seq<char>, Map<Seq<char>, Seq<char>>>::empty().insert(
        "ruby"@,
        Map::<Seq<char>, Seq<char>>::empty().insert("pry"@, "binding.pry"@),
    ).insert(
        "javascript"@,
        Map::<Seq<char>, Seq<char>>::empty().insert("clo"@, "console.log('$1:', $1)"@),
    )
}

/// The built-in table, constructed once at startup and never mutated after.
pub fn builtin_table() -> (r: LangSnippetTable)
    ensures
        r.wf(),
        r@ == spec_builtin_table(),
{
    let mut ruby = SnippetSet::new();
    ruby.insert("pry".to_owned(), "binding.pry".to_owned());
    let mut javascript = SnippetSet::new();
    javascript.insert("clo".to_owned(), "console.log('$1:', $1)".to_owned());
    let mut table = LangSnippetTable::new();
    table.insert("ruby".to_owned(), ruby);
    table.insert("javascript".to_owned(), javascript);
    table
}

} // verus!
