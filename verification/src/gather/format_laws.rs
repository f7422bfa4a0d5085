//! Reading observations undoes writing them: lines of `/proc/modules` and of `modules.alias`.
use crate::gather::alias::{alias_of, aliases_of};
use crate::gather::proc_modules::{
    line_entry, lines_entries, non_blank, state_of, users, EntryView, LineFault,
};
use crate::gather::ModuleState;
use crate::number::{decimal, lemma_decimal_reads_back};
use crate::split::{has_part, pieces, pieces_at_most};
use crate::text::trimmed;
use crate::text_laws::{
    is_free_of, is_solid, is_trim, lemma_affixes, lemma_cut_at_first, lemma_pieces_at, lemma_trim_idle,
};
use vstd::prelude::*;

verus! {

// ── Lines of /proc/modules ────────────────────────────────────────────────────

proof fn lemma_one_space()
    ensures
        " "@ == seq![' '],
        ","@ == seq![','],
{
    reveal_strlit(" ");
    reveal_strlit(",");
    assert(" "@ =~= seq![' ']);
    assert(","@ =~= seq![',']);
}

/// The line that tells of a loaded module, as the kernel writes it.
pub open spec fn module_line(
    name: Seq<char>,
    size: Seq<char>,
    use_count: nat,
    used_by: Seq<char>,
    state: Seq<char>,
    rest: Seq<char>,
) -> Seq<char> {
    name + " "@ + size + " "@ + decimal(use_count) + " "@ + used_by + " "@ + state + " "@ + rest
}

/// A line gives back what was written into it: the name, the use count, the users, the state, and
/// whether the last column marks the module as out-of-tree.
pub proof fn lemma_line_reads_back(
    name: Seq<char>,
    size: Seq<char>,
    use_count: nat,
    used_by: Seq<char>,
    state: Seq<char>,
    rest: Seq<char>,
)
    requires
        is_free_of(name, ' '),
        is_free_of(size, ' '),
        is_free_of(used_by, ' '),
        use_count <= u32::MAX,
        state == "Live"@ || state == "Loading"@ || state == "Unloading"@,
    ensures
        line_entry(module_line(name, size, use_count, used_by, state, rest)) == Ok::<
            EntryView,
            Seq<char>,
        >(
            EntryView {
                name,
                use_count,
                used_by: users(used_by),
                state: if state == "Live"@ {
                    ModuleState::Live
                } else if state == "Loading"@ {
                    ModuleState::Loading
                } else {
                    ModuleState::Unloading
                },
                is_out_of_tree: has_part(rest, "(OE)"@),
            },
        ),
{
    lemma_one_space();
    reveal_strlit("Live");
    reveal_strlit("Loading");
    reveal_strlit("Unloading");
    let digits = decimal(use_count);
    lemma_decimal_reads_back(use_count);
    assert(is_free_of(digits, ' '));
    assert(is_free_of(state, ' ')) by {
        assert forall|i: int| 0 <= i < state.len() implies #[trigger] state[i] != ' ' by {
        }
    }
    let s4 = state + seq![' '] + rest;
    let s3 = used_by + seq![' '] + s4;
    let s2 = digits + seq![' '] + s3;
    let s1 = size + seq![' '] + s2;
    let line = module_line(name, size, use_count, used_by, state, rest);
    assert(line =~= name + seq![' '] + s1);
    lemma_pieces_at(name, ' ', s1, 6);
    lemma_pieces_at(size, ' ', s2, 5);
    lemma_pieces_at(digits, ' ', s3, 4);
    lemma_pieces_at(used_by, ' ', s4, 3);
    lemma_pieces_at(state, ' ', rest, 2);
    let cols = pieces_at_most(line, ' ', 6);
    assert(cols =~= seq![name, size, digits, used_by, state, rest]);
    assert(is_trim(state));
    lemma_trim_idle(state);
    assert("Live"@.len() == 4 && "Loading"@.len() == 7 && "Unloading"@.len() == 9);
}

proof fn lemma_non_blank_adds_up(a: Seq<Seq<char>>, b: Seq<Seq<char>>)
    ensures
        non_blank(a + b) == non_blank(a) + non_blank(b),
    decreases b.len(),
{
    if b.len() == 0 {
        assert(a + b =~= a);
        assert(non_blank(a) + non_blank(b) =~= non_blank(a));
    } else {
        assert((a + b).drop_last() =~= a + b.drop_last());
        lemma_non_blank_adds_up(a, b.drop_last());
        assert(non_blank(a + b) =~= non_blank(a) + non_blank(b));
    }
}

/// Names, each with a comma behind it, as the kernel writes them.
pub open spec fn comma_ended(names: Seq<Seq<char>>) -> Seq<char>
    decreases names.len(),
{
    if names.len() == 0 {
        seq![]
    } else {
        names[0] + ","@ + comma_ended(names.drop_first())
    }
}

/// All users of a module are read, in their order; a dash stands for none.
pub proof fn lemma_users_read_back(names: Seq<Seq<char>>)
    requires
        forall|i: int|
            0 <= i < names.len() ==> is_solid(#[trigger] names[i]) && is_free_of(names[i], ','),
    ensures
        users(comma_ended(names)) == names,
        users("-"@) == Seq::<Seq<char>>::empty(),
{
    reveal_strlit("-");
    lemma_one_space();
    lemma_pieces_read_back(names);
    if names.len() > 0 {
        let s = comma_ended(names);
        assert(names[0].len() > 0);
        assert(s[names[0].len() as int] == ',');
        assert("-"@.len() == 1);
    } else {
        assert("-"@.len() == 1);
    }
}

proof fn lemma_pieces_read_back(names: Seq<Seq<char>>)
    requires
        forall|i: int|
            0 <= i < names.len() ==> is_solid(#[trigger] names[i]) && is_free_of(names[i], ','),
    ensures
        non_blank(pieces(comma_ended(names), ',')) == names,
    decreases names.len(),
{
    lemma_one_space();
    if names.len() == 0 {
        let empty = Seq::<char>::empty();
        lemma_pieces_at(empty, ',', empty, 2);
        lemma_trim_idle(empty);
        assert(pieces(comma_ended(names), ',') =~= seq![empty]);
        assert(seq![empty].drop_last() =~= Seq::<Seq<char>>::empty());
        assert(non_blank(seq![empty].drop_last()) =~= seq![]);
        assert(non_blank(seq![empty]) =~= names);
    } else {
        let rest = names.drop_first();
        let own = names[0];
        assert forall|i: int| 0 <= i < rest.len() implies is_solid(#[trigger] rest[i])
            && is_free_of(rest[i], ',') by {
            assert(is_solid(names[i + 1]) && is_free_of(names[i + 1], ','));
        }
        lemma_pieces_read_back(rest);
        lemma_pieces_at(own, ',', comma_ended(rest), 2);
        lemma_non_blank_adds_up(seq![own], pieces(comma_ended(rest), ','));
        assert(is_trim(own)) by {
            assert(!is_space_at(own, 0));
            assert(!is_space_at(own, own.len() - 1));
        }
        lemma_trim_idle(own);
        assert(seq![own].drop_last() =~= Seq::<Seq<char>>::empty());
        assert(non_blank(seq![own].drop_last()) =~= seq![]);
        assert(non_blank(seq![own]) =~= seq![own]);
        assert(seq![own] + rest =~= names);
    }
}

spec fn is_space_at(s: Seq<char>, i: int) -> bool {
    crate::text::is_space(s[i])
}

/// Lines are read one after the other: what the first ones say comes first, a fault in them decides,
/// and a fault in the later ones is told with its place among all.
pub proof fn lemma_lines_add_up(a: Seq<Seq<char>>, b: Seq<Seq<char>>)
    ensures
        match (lines_entries(a), lines_entries(b)) {
            (Err(fault), _) => lines_entries(a + b) == Err::<Seq<EntryView>, LineFault>(fault),
            (Ok(x), Ok(y)) => lines_entries(a + b) == Ok::<Seq<EntryView>, LineFault>(x + y),
            (Ok(_), Err(fault)) => lines_entries(a + b) == Err::<Seq<EntryView>, LineFault>(
                LineFault { line_no: a.len() + fault.line_no, ..fault },
            ),
        },
    decreases b.len(),
{
    if b.len() == 0 {
        assert(a + b =~= a);
        if lines_entries(a) is Ok {
            let x = lines_entries(a)->Ok_0;
            assert(x + Seq::<EntryView>::empty() =~= x);
        }
    } else {
        assert((a + b).drop_last() =~= a + b.drop_last());
        assert((a + b).last() == b.last());
        lemma_lines_add_up(a, b.drop_last());
        if lines_entries(a) is Ok && lines_entries(b) is Ok {
            let x = lines_entries(a)->Ok_0;
            let y = lines_entries(b)->Ok_0;
            assert(lines_entries(b.drop_last()) is Ok);
            let y0 = lines_entries(b.drop_last())->Ok_0;
            if trimmed(b.last()).len() > 0 {
                assert(x + y0.push(y.last()) =~= (x + y0).push(y.last()));
            }
        }
    }
}

/// A blank line says nothing; any other says what it holds, or is at fault.
pub proof fn lemma_one_line(line: Seq<char>)
    ensures
        trimmed(line).len() == 0 ==> lines_entries(seq![line]) == Ok::<Seq<EntryView>, LineFault>(
            seq![],
        ),
        trimmed(line).len() > 0 ==> match line_entry(trimmed(line)) {
            Ok(entry) => lines_entries(seq![line]) == Ok::<Seq<EntryView>, LineFault>(seq![entry]),
            Err(reason) => lines_entries(seq![line]) == Err::<Seq<EntryView>, LineFault>(
                LineFault { line_no: 1, reason, line: trimmed(line) },
            ),
        },
{
    reveal_with_fuel(lines_entries, 2);
    assert(seq![line].drop_last() =~= Seq::<Seq<char>>::empty());
    assert(Seq::<EntryView>::empty() =~= seq![]);
    if trimmed(line).len() > 0 && line_entry(trimmed(line)) is Ok {
        let entry = line_entry(trimmed(line))->Ok_0;
        assert(Seq::<EntryView>::empty().push(entry) =~= seq![entry]);
    }
}

// ── Lines of modules.alias ────────────────────────────────────────────────────

/// A line of the alias map gives back the pattern and the module that were written into it.
pub proof fn lemma_alias_reads_back(pattern: Seq<char>, module: Seq<char>)
    requires
        is_solid(pattern),
        is_solid(module),
    ensures
        alias_of("alias "@ + pattern + " "@ + module) == Some((pattern, module)),
{
    reveal_strlit("alias ");
    lemma_one_space();
    let rest = pattern + seq![' '] + module;
    let line = "alias "@ + pattern + " "@ + module;
    assert(line =~= "alias "@ + rest);
    assert(!is_space_at(module, module.len() - 1));
    assert(line.last() == module.last());
    assert(line[0] == 'a');
    lemma_trim_idle(line);
    lemma_affixes("alias "@, rest, seq![]);
    assert(is_free_of(pattern, ' ')) by {
        assert forall|i: int| 0 <= i < pattern.len() implies #[trigger] pattern[i] != ' ' by {
            assert(!crate::text::is_space(pattern[i]));
        }
    }
    lemma_cut_at_first(pattern, ' ', module);
    assert(!is_space_at(pattern, 0) && !is_space_at(pattern, pattern.len() - 1));
    assert(!is_space_at(module, 0));
    lemma_trim_idle(pattern);
    lemma_trim_idle(module);
}

/// Every line of the alias map is read, in its order: those of two maps, one behind the other, are
/// those of the one and then those of the other. A line that does not begin with `alias` says
/// nothing.
pub proof fn lemma_aliases_add_up(a: Seq<Seq<char>>, b: Seq<Seq<char>>, line: Seq<char>)
    ensures
        aliases_of(a + b) == aliases_of(a) + aliases_of(b),
        alias_of(line) is Some ==> aliases_of(seq![line]) == seq![alias_of(line)->0],
        !"alias "@.is_prefix_of(trimmed(line)) ==> aliases_of(seq![line]) == Seq::<
            (Seq<char>, Seq<char>),
        >::empty(),
    decreases b.len(),
{
    assert(seq![line].drop_last() =~= Seq::<Seq<char>>::empty());
    assert(aliases_of(seq![line].drop_last()) =~= seq![]);
    assert(seq![line].last() == line);
    if alias_of(line) is Some {
        assert(aliases_of(seq![line]) =~= seq![alias_of(line)->0]);
    }
    if b.len() == 0 {
        assert(a + b =~= a);
        assert(aliases_of(a) + aliases_of(b) =~= aliases_of(a));
    } else {
        assert((a + b).drop_last() =~= a + b.drop_last());
        lemma_aliases_add_up(a, b.drop_last(), line);
        assert(aliases_of(a + b) =~= aliases_of(a) + aliases_of(b));
    }
}

/// Each state has its word, and no other word stands for one.
pub proof fn lemma_states_have_words(word: Seq<char>)
    ensures
        state_of(word) == Some(ModuleState::Live) <==> word == "Live"@,
        state_of(word) == Some(ModuleState::Loading) <==> word == "Loading"@,
        state_of(word) == Some(ModuleState::Unloading) <==> word == "Unloading"@,
{
    reveal_strlit("Live");
    reveal_strlit("Loading");
    reveal_strlit("Unloading");
    assert("Live"@.len() == 4 && "Loading"@.len() == 7 && "Unloading"@.len() == 9);
}

} // verus!
