//! The extension's answers to the editor that do not read the project:
//! which slash command a name denotes and how its arguments complete.

use vstd::prelude::*;

verus! {

/// The slash commands the extension runs.
#[derive(PartialEq, Eq, Structural)]
pub enum SlashCommandKind {
    /// `/i18n <key> [lang]`
    Lookup,
    /// `/i18n-keys [lang]`
    Keys,
    /// `/i18n-sync [lang]`
    Sync,
}

/// The error for a command name the extension does not know.
pub open spec fn unknown_command_text(name: Seq<char>) -> Seq<char> {
    "unknown slash command: \""@ + name + "\""@
}

/// The command that `name` denotes.
pub open spec fn command_of(name: Seq<char>) -> Option<SlashCommandKind> {
    if name == "i18n"@ {
        Some(SlashCommandKind::Lookup)
    } else if name == "i18n-keys"@ {
        Some(SlashCommandKind::Keys)
    } else if name == "i18n-sync"@ {
        Some(SlashCommandKind::Sync)
    } else {
        None
    }
}

/// Builds the error for an unknown command name.
fn unknown_command(name: &str) -> (r: String)
    ensures
        r@ == unknown_command_text(name@),
{
    let mut r = String::from_str("unknown slash command: \"");
    r.append(name);
    r.append("\"");
    r
}

/// The command that `name` denotes, or the error for an unknown name.
pub fn slash_command_kind(name: &str) -> (r: Result<SlashCommandKind, String>)
    ensures
        match command_of(name@) {
            Some(k) => r == Ok::<SlashCommandKind, String>(k),
            None => r matches Err(e) && e@ == unknown_command_text(name@),
        },
{
    if crate::json::str_eq(name, "i18n") {
        Ok(SlashCommandKind::Lookup)
    } else if crate::json::str_eq(name, "i18n-keys") {
        Ok(SlashCommandKind::Keys)
    } else if crate::json::str_eq(name, "i18n-sync") {
        Ok(SlashCommandKind::Sync)
    } else {
        Err(unknown_command(name))
    }
}

/// One proposed completion of a command argument.
pub struct Completion {
    /// What the editor shows.
    pub label: String,
    /// What the editor inserts.
    pub new_text: String,
    /// Whether choosing it runs the command at once.
    pub run_command: bool,
}

/// The label of the completion for language `code` named `name`.
pub open spec fn completion_label(code: Seq<char>, name: Seq<char>) -> Seq<char> {
    code + " \u{2014} "@ + name
}

/// `completions` proposes each language of `langs`, in order.
pub open spec fn proposes_languages(completions: Seq<Completion>, langs: Seq<(String, String)>) -> bool {
    &&& completions.len() == langs.len()
    &&& forall|i: int| 0 <= i < langs.len() ==> {
        &&& #[trigger] completions[i].label@ == completion_label(langs[i].0@, langs[i].1@)
        &&& completions[i].new_text@ == langs[i].0@
        &&& completions[i].run_command
    }
}

/// Proposes each of the `(code, name)` pairs of `langs` as a language.
fn language_completions(langs: &Vec<(String, String)>) -> (r: Vec<Completion>)
    ensures
        proposes_languages(r@, langs@),
{
    let mut out: Vec<Completion> = Vec::new();
    let mut i: usize = 0;
    while i < langs.len()
        invariant
            i <= langs.len(),
            proposes_languages(out@, langs@.take(i as int)),
        decreases langs.len() - i,
    {
        let mut label = String::from_str(langs[i].0.as_str());
        label.append(" \u{2014} ");
        label.append(langs[i].1.as_str());
        out.push(Completion { label, new_text: langs[i].0.clone(), run_command: true });
        assert forall|k: int| 0 <= k < i + 1 implies #[trigger] out@[k].label@ == completion_label(
            langs@.take(i + 1)[k].0@,
            langs@.take(i + 1)[k].1@,
        ) && out@[k].new_text@ == langs@.take(i + 1)[k].0@ && out@[k].run_command by {
            if k < i {
                assert(langs@.take(i as int)[k] == langs@.take(i + 1)[k]);
            }
        }
        i = i + 1;
    }
    assert(langs@.take(i as int) =~= langs@);
    out
}

/// The completions of the arguments `args` of the command `name`: the
/// languages of `langs` for the language argument (`/i18n` once its key is
/// typed, `/i18n-keys` and `/i18n-sync` always), nothing for the key of
/// `/i18n`, and an error for an unknown command.
pub fn complete_slash_command_argument(name: &str, args: &Vec<String>, langs: &Vec<(String, String)>) -> (r: Result<Vec<Completion>, String>)
    ensures
        match command_of(name@) {
            Some(SlashCommandKind::Lookup) => r matches Ok(c) && if args@.len() >= 1 {
                proposes_languages(c@, langs@)
            } else {
                c@.len() == 0
            },
            Some(_) => r matches Ok(c) && proposes_languages(c@, langs@),
            None => r matches Err(e) && e@ == unknown_command_text(name@),
        },
{
    match slash_command_kind(name) {
        Ok(SlashCommandKind::Lookup) => {
            if args.len() >= 1 {
                Ok(language_completions(langs))
            } else {
                Ok(Vec::new())
            }
        },
        Ok(_) => Ok(language_completions(langs)),
        Err(e) => Err(e),
    }
}

} // verus!
