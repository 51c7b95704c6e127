use snippets_ls::registry::DocumentRegistry;
use snippets_ls::resolve::{
    expand_home, resolve, snippets_file_location, snippets_file_path, FileSetting, InitOptions,
    InlineSetting,
};
use snippets_ls::store::builtin_table;
use snippets_ls::table::{merge_snippets, set_eq, table_eq, LangSnippetTable, SnippetSet};

fn single_lang_table(lang: &str, trigger: &str, body: &str) -> LangSnippetTable {
    let mut set = SnippetSet::new();
    set.insert(trigger.to_string(), body.to_string());
    let mut table = LangSnippetTable::new();
    table.insert(lang.to_string(), set);
    table
}

#[test]
fn test_parse() {
    let builtin = builtin_table();
    let resolved = resolve(&builtin, None, None);
    assert!(table_eq(&builtin, &resolved));
}

#[test]
fn merge_empty_snippets() {
    let merged = merge_snippets(LangSnippetTable::new(), LangSnippetTable::new());
    assert!(table_eq(&LangSnippetTable::new(), &merged));
}

#[test]
fn add_lang() {
    let mut common_snippets = LangSnippetTable::new();
    let mut common_snippet = SnippetSet::new();
    common_snippet.insert("clo".to_string(), "console.log('$1:', $1)".to_string());
    common_snippets.insert("javascript".to_string(), common_snippet);

    let mut snippets = LangSnippetTable::new();
    let mut snippet = SnippetSet::new();
    snippet.insert("irb".to_string(), "binding.irb".to_string());
    snippets.insert("ruby".to_string(), snippet);

    let mut assert_snippets = LangSnippetTable::new();
    let mut ruby_snippet = SnippetSet::new();
    let mut javascript_snippet = SnippetSet::new();
    ruby_snippet.insert("irb".to_string(), "binding.irb".to_string());
    javascript_snippet.insert("clo".to_string(), "console.log('$1:', $1)".to_string());
    assert_snippets.insert("ruby".to_string(), ruby_snippet);
    assert_snippets.insert("javascript".to_string(), javascript_snippet);
    assert!(table_eq(
        &assert_snippets,
        &merge_snippets(common_snippets, snippets)
    ));
}

#[test]
fn update_lang() {
    let mut common_snippets = LangSnippetTable::new();
    let mut common_snippet = SnippetSet::new();
    common_snippet.insert("pry".to_string(), "binding.pry".to_string());
    common_snippets.insert("ruby".to_string(), common_snippet);

    let mut snippets = LangSnippetTable::new();
    let mut snippet = SnippetSet::new();
    snippet.insert("pry".to_string(), "require 'pry'; binding.pry".to_string());
    snippets.insert("ruby".to_string(), snippet);

    let mut assert_snippets = LangSnippetTable::new();
    let mut ruby_snippet = SnippetSet::new();
    ruby_snippet.insert("pry".to_string(), "require 'pry'; binding.pry".to_string());
    assert_snippets.insert("ruby".to_string(), ruby_snippet);
    assert!(table_eq(
        &assert_snippets,
        &merge_snippets(common_snippets, snippets)
    ));
}

#[test]
fn merge_identity_laws() {
    let table = single_lang_table("ruby", "pry", "binding.pry");
    let merged_right = merge_snippets(table.clone(), LangSnippetTable::new());
    assert!(table_eq(&table, &merged_right));
    let merged_left = merge_snippets(LangSnippetTable::new(), table.clone());
    assert!(table_eq(&table, &merged_left));
}

#[test]
fn merge_overlay_wins() {
    let base = single_lang_table("ruby", "pry", "binding.pry");
    let overlay = single_lang_table("ruby", "pry", "require 'pry'; binding.pry");
    let merged = merge_snippets(base, overlay);
    let ruby = merged.get(&"ruby".to_string()).unwrap();
    assert_eq!(
        ruby.get(&"pry".to_string()).unwrap(),
        "require 'pry'; binding.pry"
    );
}

#[test]
fn merge_keeps_new_language_unchanged() {
    let base = single_lang_table("javascript", "clo", "console.log('$1:', $1)");
    let mut overlay_set = SnippetSet::new();
    overlay_set.insert("irb".to_string(), "binding.irb".to_string());
    overlay_set.insert("pry".to_string(), "binding.pry".to_string());
    let mut overlay = LangSnippetTable::new();
    overlay.insert("ruby".to_string(), overlay_set.clone());
    let merged = merge_snippets(base, overlay);
    let ruby = merged.get(&"ruby".to_string()).unwrap();
    assert!(set_eq(ruby, &overlay_set));
}

#[test]
fn merge_idempotent() {
    let base = single_lang_table("ruby", "pry", "binding.pry");
    let overlay = single_lang_table("ruby", "pry", "require 'pry'; binding.pry");
    let once = merge_snippets(base, overlay.clone());
    let twice = merge_snippets(once.clone(), overlay);
    assert!(table_eq(&once, &twice));
}

#[test]
fn resolve_inline_overrides_builtin() {
    let builtin = single_lang_table("ruby", "pry", "binding.pry");
    let inline_table = single_lang_table("ruby", "pry", "require 'pry'; binding.pry");
    let opts = InitOptions {
        snippets_file: Some(FileSetting::NotAString),
        snippets: Some(InlineSetting::GivenTable(inline_table)),
    };
    let resolved = resolve(&builtin, Some(&opts), None);
    let ruby = resolved.get(&"ruby".to_string()).unwrap();
    assert_eq!(
        ruby.get(&"pry".to_string()).unwrap(),
        "require 'pry'; binding.pry"
    );
    let pairs = ruby.to_pairs();
    assert_eq!(pairs.len(), 1);
}

#[test]
fn resolve_file_adds_language() {
    let builtin = single_lang_table("javascript", "clo", "console.log('$1:', $1)");
    let opts = InitOptions {
        snippets_file: None,
        snippets: None,
    };
    let file_text = "[ruby]\nirb = \"binding.irb\"\n";
    let resolved = resolve(&builtin, Some(&opts), Some(file_text));
    let javascript = resolved.get(&"javascript".to_string()).unwrap();
    assert_eq!(
        javascript.get(&"clo".to_string()).unwrap(),
        "console.log('$1:', $1)"
    );
    let ruby = resolved.get(&"ruby".to_string()).unwrap();
    assert_eq!(ruby.get(&"irb".to_string()).unwrap(), "binding.irb");
}

#[test]
fn resolve_unparsable_file_keeps_builtin() {
    let builtin = builtin_table();
    let opts = InitOptions {
        snippets_file: None,
        snippets: None,
    };
    let resolved = resolve(&builtin, Some(&opts), Some("not [valid toml"));
    assert!(table_eq(&builtin, &resolved));
}

#[test]
fn resolve_invalid_inline_keeps_builtin() {
    let builtin = builtin_table();
    let opts = InitOptions {
        snippets_file: None,
        snippets: Some(InlineSetting::Invalid),
    };
    let resolved = resolve(&builtin, Some(&opts), None);
    assert!(table_eq(&builtin, &resolved));
}

#[test]
fn resolve_missing_file_keeps_builtin() {
    let builtin = builtin_table();
    let opts = InitOptions {
        snippets_file: Some(FileSetting::GivenPath(
            "/nonexistent/snippets.toml".to_string(),
        )),
        snippets: None,
    };
    let path = snippets_file_path(Some(&opts), Some(&"/home/user".to_string()));
    assert_eq!(path.unwrap(), "/nonexistent/snippets.toml");
    let resolved = resolve(&builtin, Some(&opts), None);
    assert!(table_eq(&builtin, &resolved));
}

#[test]
fn expand_home_rewrites_prefix() {
    let home = "/home/user".to_string();
    assert_eq!(
        expand_home("~/snippets.toml", Some(&home)),
        "/home/user/snippets.toml"
    );
    assert_eq!(expand_home("/etc/snippets.toml", Some(&home)), "/etc/snippets.toml");
    assert_eq!(expand_home("~/snippets.toml", None), "~/snippets.toml");
}

#[test]
fn snippets_file_path_cases() {
    let home = "/home/user".to_string();
    assert_eq!(snippets_file_path(None, Some(&home)), None);
    let defaulted = InitOptions {
        snippets_file: None,
        snippets: None,
    };
    assert_eq!(
        snippets_file_path(Some(&defaulted), Some(&home)).unwrap(),
        "/home/user/.config/snippets-ls/snippets.toml"
    );
    assert_eq!(snippets_file_path(Some(&defaulted), None), None);
    let not_a_string = InitOptions {
        snippets_file: Some(FileSetting::NotAString),
        snippets: None,
    };
    assert_eq!(snippets_file_path(Some(&not_a_string), Some(&home)), None);
}

#[test]
fn no_options_means_no_file_lookup() {
    assert_eq!(snippets_file_location(None), None);
}

#[test]
fn registry_open_then_close() {
    let table = builtin_table();
    let mut registry = DocumentRegistry::new();
    registry.on_open("file:///a.rb".to_string(), "ruby".to_string());
    let pairs = registry.snippets_for(&"file:///a.rb".to_string(), &table);
    assert_eq!(pairs.len(), 1);
    assert_eq!(pairs[0].0, "pry");
    assert_eq!(pairs[0].1, "binding.pry");
    registry.on_close(&"file:///a.rb".to_string());
    let pairs = registry.snippets_for(&"file:///a.rb".to_string(), &table);
    assert!(pairs.is_empty());
}

#[test]
fn registry_unknown_document_is_empty() {
    let table = builtin_table();
    let registry = DocumentRegistry::new();
    let pairs = registry.snippets_for(&"file:///never-opened.rb".to_string(), &table);
    assert!(pairs.is_empty());
}

#[test]
fn registry_unknown_language_is_empty() {
    let table = builtin_table();
    let mut registry = DocumentRegistry::new();
    registry.on_open("file:///a.zig".to_string(), "zig".to_string());
    let pairs = registry.snippets_for(&"file:///a.zig".to_string(), &table);
    assert!(pairs.is_empty());
}
