//! The localization keys by language: for each language the keys that the
//! files written for it define, with their values.

pub use crate::database::key_table::LocalizationKeyMap;
use crate::database::key_table::lookup;
use crate::database::models::{FileIdAndPath, FileIdAndPathRow, LocalizationKeyRow};
use crate::database::parser::{failure, parse_text, ParseOutcome, Parser};
use crate::database::resolution::{insert_entries, upsert_entries};
use crate::database::Language;
use crate::error::{Error, ErrorView};
use vstd::prelude::*;
use vstd::string::*;

verus! {

/// The localization keys by language. The view maps each language to the
/// rows of its keys.
#[derive(Debug)]
pub struct LocalizationMap {
    english: LocalizationKeyMap,
    brazilian_portuguese: LocalizationKeyMap,
    french: LocalizationKeyMap,
    german: LocalizationKeyMap,
    polish: LocalizationKeyMap,
    russian: LocalizationKeyMap,
    spanish: LocalizationKeyMap,
    japanese: LocalizationKeyMap,
    simplified_chinese: LocalizationKeyMap,
    korean: LocalizationKeyMap,
    turkish: LocalizationKeyMap,
}

impl View for LocalizationMap {
    type V = Map<Language, Seq<LocalizationKeyRow>>;

    closed spec fn view(&self) -> Map<Language, Seq<LocalizationKeyRow>> {
        Map::new(|language: Language| true, |language: Language| self.key_map(language)@)
    }
}

/// The map that has no key for any language.
pub open spec fn no_keys() -> Map<Language, Seq<LocalizationKeyRow>> {
    Map::new(|language: Language| true, |language: Language| Seq::<LocalizationKeyRow>::empty())
}

impl LocalizationMap {
    spec fn key_map(self, language: Language) -> LocalizationKeyMap {
        match language {
            Language::English => self.english,
            Language::BrazilianPortuguese => self.brazilian_portuguese,
            Language::French => self.french,
            Language::German => self.german,
            Language::Polish => self.polish,
            Language::Russian => self.russian,
            Language::Spanish => self.spanish,
            Language::Japanese => self.japanese,
            Language::SimplifiedChinese => self.simplified_chinese,
            Language::Korean => self.korean,
            Language::Turkish => self.turkish,
        }
    }

    /// The map without keys.
    pub fn new() -> (map: LocalizationMap)
        ensures
            map@ == no_keys(),
    {
        let map = LocalizationMap {
            english: LocalizationKeyMap::new(),
            brazilian_portuguese: LocalizationKeyMap::new(),
            french: LocalizationKeyMap::new(),
            german: LocalizationKeyMap::new(),
            polish: LocalizationKeyMap::new(),
            russian: LocalizationKeyMap::new(),
            spanish: LocalizationKeyMap::new(),
            japanese: LocalizationKeyMap::new(),
            simplified_chinese: LocalizationKeyMap::new(),
            korean: LocalizationKeyMap::new(),
            turkish: LocalizationKeyMap::new(),
        };
        proof {
            assert(map@ =~= no_keys());
        }
        map
    }

    /// The keys of `language`, to look at.
    pub fn localization_key_map(&self, language: Language) -> (map: &LocalizationKeyMap)
        ensures
            map@ == self@[language],
    {
        match language {
            Language::English => &self.english,
            Language::BrazilianPortuguese => &self.brazilian_portuguese,
            Language::French => &self.french,
            Language::German => &self.german,
            Language::Polish => &self.polish,
            Language::Russian => &self.russian,
            Language::Spanish => &self.spanish,
            Language::Japanese => &self.japanese,
            Language::SimplifiedChinese => &self.simplified_chinese,
            Language::Korean => &self.korean,
            Language::Turkish => &self.turkish,
        }
    }

    /// The keys of `language`, to add to. The keys of the other languages
    /// stay as they are.
    pub fn get_localization_key_map(&mut self, language: Language) -> (map: &mut LocalizationKeyMap)
        ensures
            map@ == old(self)@[language],
            final(self)@ == old(self)@.insert(language, final(map)@),
    {
        match language {
            Language::English => &mut self.english,
            Language::BrazilianPortuguese => &mut self.brazilian_portuguese,
            Language::French => &mut self.french,
            Language::German => &mut self.german,
            Language::Polish => &mut self.polish,
            Language::Russian => &mut self.russian,
            Language::Spanish => &mut self.spanish,
            Language::Japanese => &mut self.japanese,
            Language::SimplifiedChinese => &mut self.simplified_chinese,
            Language::Korean => &mut self.korean,
            Language::Turkish => &mut self.turkish,
        }
    }
}

/// The keys by language when the files `sources`, each with its content,
/// have been parsed in order and the keys of each added to the keys of the
/// file's language; or the error of the first file that does not parse.
pub open spec fn collect(
    map: Map<Language, Seq<LocalizationKeyRow>>,
    sources: Seq<(FileIdAndPathRow, Seq<char>)>,
) -> Result<Map<Language, Seq<LocalizationKeyRow>>, ErrorView>
    decreases sources.len(),
{
    if sources.len() == 0 {
        Ok(map)
    } else {
        match collect(map, sources.drop_last()) {
            Err(error) => Err(error),
            Ok(before) => match parse_text(sources.last().1) {
                ParseOutcome::Parsed { language, keys } => Ok(
                    before.insert(
                        language,
                        upsert_entries(before[language], keys, sources.last().0.id, language),
                    ),
                ),
                ParseOutcome::Failed { kind, line } => Err(
                    failure(sources.last().0.full_path, kind, line),
                ),
            },
        }
    }
}

/// A file that does not parse fails the whole run, whatever follows it.
pub proof fn lemma_collect_fails(
    map: Map<Language, Seq<LocalizationKeyRow>>,
    sources: Seq<(FileIdAndPathRow, Seq<char>)>,
    n: int,
)
    requires
        0 <= n <= sources.len(),
        collect(map, sources.take(n)) is Err,
    ensures
        collect(map, sources) == collect(map, sources.take(n)),
    decreases sources.len() - n,
{
    if n < sources.len() {
        assert(sources.take(n + 1).drop_last() =~= sources.take(n));
        lemma_collect_fails(map, sources, n + 1);
    } else {
        assert(sources.take(n) =~= sources);
    }
}

/// The localization keys of a directory of localization files, by language.
#[derive(Debug)]
pub struct LocalizationDatabase {
    localization_map: LocalizationMap,
}

impl View for LocalizationDatabase {
    type V = Map<Language, Seq<LocalizationKeyRow>>;

    closed spec fn view(&self) -> Map<Language, Seq<LocalizationKeyRow>> {
        self.localization_map@
    }
}

impl LocalizationDatabase {
    /// Parses the files `sources`, each given with its content, in order,
    /// and collects their keys by language. A later file overwrites the keys
    /// of an earlier one of the same language. Where a file does not parse,
    /// nothing is kept.
    pub fn new(sources: &Vec<(FileIdAndPath, String)>) -> (result: Result<
        LocalizationDatabase,
        Error,
    >)
        ensures
            match collect(no_keys(), sources.deep_view()) {
                Ok(map) => result matches Ok(database) && database@ == map,
                Err(failed) => result matches Err(error) && error@ == failed,
            },
    {
        let mut localization_map = LocalizationMap::new();
        match Self::add_localization_keys_from_dir(&mut localization_map, sources) {
            Ok(()) => Ok(LocalizationDatabase { localization_map }),
            Err(error) => Err(error),
        }
    }

    /// The keys by language.
    pub fn localization_map(&self) -> (map: &LocalizationMap)
        ensures
            map@ == self@,
    {
        &self.localization_map
    }

    /// The value of `key` in `language`, if a file of that language defines
    /// the key.
    pub fn get(&self, language: Language, key: &str) -> (value: Option<&str>)
        ensures
            match value {
                Some(value) => lookup(self@[language], key@) matches Some(row) && row.value
                    == value@,
                None => lookup(self@[language], key@) is None,
            },
    {
        match self.localization_map.localization_key_map(language).get(key) {
            Some(row) => Some(row.value.as_str()),
            None => None,
        }
    }

    /// Adds the keys of the files `sources` to the keys of their languages.
    fn add_localization_keys_from_dir(
        localization_map: &mut LocalizationMap,
        sources: &Vec<(FileIdAndPath, String)>,
    ) -> (result: Result<(), Error>)
        ensures
            match collect(old(localization_map)@, sources.deep_view()) {
                Ok(map) => result is Ok && final(localization_map)@ == map,
                Err(failed) => result matches Err(error) && error@ == failed,
            },
    {
        let ghost start = localization_map@;
        let ghost all = sources.deep_view();
        let mut i: usize = 0;
        proof {
            assert(all.take(0) =~= Seq::empty());
        }
        while i < sources.len()
            invariant
                i <= sources.len(),
                all == sources.deep_view(),
                start == old(localization_map)@,
                collect(start, all.take(i as int)) == Ok::<
                    Map<Language, Seq<LocalizationKeyRow>>,
                    ErrorView,
                >(localization_map@),
            decreases sources.len() - i,
        {
            let source = &sources[i];
            proof {
                assert(all.take(i + 1).drop_last() =~= all.take(i as int));
                assert(all.take(i + 1).last() == source.deep_view());
            }
            match Parser::parse_localization_file(source.0.full_path.as_str(), source.1.as_str()) {
                Ok((language, keys)) => {
                    let key_map = localization_map.get_localization_key_map(language);
                    insert_entries(key_map, keys, source.0.id, language);
                },
                Err(error) => {
                    proof {
                        assert(collect(start, all.take(i + 1)) == Err::<
                            Map<Language, Seq<LocalizationKeyRow>>,
                            ErrorView,
                        >(error@));
                        lemma_collect_fails(start, all, i + 1);
                    }
                    return Err(error);
                },
            }
            i += 1;
        }
        proof {
            assert(all.take(i as int) =~= all);
        }
        Ok(())
    }
}

impl Default for LocalizationMap {
    fn default() -> (map: LocalizationMap)
        ensures
            map@ == no_keys(),
    {
        LocalizationMap::new()
    }
}

impl Default for LocalizationDatabase {
    fn default() -> (database: LocalizationDatabase)
        ensures
            database@ == no_keys(),
    {
        LocalizationDatabase { localization_map: LocalizationMap::new() }
    }
}

} // verus!
