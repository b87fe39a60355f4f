use vstd::prelude::*;
use crate::store::lemma_views_push;
use crate::store::lemma_views_update;
use crate::store::views;
use crate::store::StoreView;
use crate::store::SyncStore;
use crate::strutil::str_eq;

verus! {

/// One key-value pair of the application settings.
#[derive(Debug)]
pub struct Setting {
    pub key: String,
    pub value: String,
}

#[verifier::ext_equal]
pub ghost struct SettingView {
    pub key: Seq<char>,
    pub value: Seq<char>,
}

impl View for Setting {
    type V = SettingView;

    open spec fn view(&self) -> SettingView {
        SettingView { key: self.key@, value: self.value@ }
    }
}

impl Clone for Setting {
    fn clone(&self) -> (res: Self)
        ensures
            res@ == self@,
    {
        Setting { key: self.key.clone(), value: self.value.clone() }
    }
}

pub open spec fn unique_keys(s: Seq<SettingView>) -> bool {
    forall|i: int, j: int| 0 <= i < j < s.len() ==> s[i].key != s[j].key
}

pub open spec fn has_key(s: Seq<SettingView>, key: Seq<char>) -> bool {
    exists|i: int| 0 <= i < s.len() && s[i].key == key
}

pub open spec fn key_index(s: Seq<SettingView>, key: Seq<char>) -> int {
    choose|i: int| 0 <= i < s.len() && s[i].key == key
}

/// With unique keys, any row carrying `key` is the row `key_index`
/// names.
proof fn lemma_key_index_is(s: Seq<SettingView>, key: Seq<char>, i: int)
    requires
        unique_keys(s),
        0 <= i < s.len(),
        s[i].key == key,
    ensures
        has_key(s, key),
        key_index(s, key) == i,
{
    assert(has_key(s, key));
    let k = key_index(s, key);
    if k < i {
        assert(s[k].key != s[i].key);
    } else if i < k {
        assert(s[i].key != s[k].key);
    }
}

/// The first row with the given key, if any.
fn find_by_key(v: &Vec<Setting>, key: &str) -> (r: Option<usize>)
    ensures
        match r {
            Some(i) => i < v@.len() && views(v@)[i as int].key == key@,
            None => !has_key(views(v@), key@),
        },
{
    let mut i: usize = 0;
    while i < v.len()
        invariant
            i <= v@.len(),
            forall|j: int| 0 <= j < i ==> views(v@)[j].key != key@,
        decreases v@.len() - i,
    {
        if str_eq(v[i].key.as_str(), key) {
            return Some(i);
        }
        i = i + 1;
    }
    None
}

/// Reads a setting by key.
pub fn get(store: &SyncStore, key: &str) -> (r: Option<String>)
    requires
        store.wf(),
    ensures
        match r {
            Some(v) => has_key(store@.settings, key@) && v@ == store@.settings[key_index(
                store@.settings,
                key@,
            )].value,
            None => !has_key(store@.settings, key@),
        },
{
    match find_by_key(&store.settings, key) {
        Some(i) => {
            proof {
                lemma_key_index_is(store@.settings, key@, i as int);
            }
            Some(store.settings[i].value.clone())
        },
        None => None,
    }
}

/// Writes a setting: overwrites the value under an existing key, else
/// inserts the pair.
pub fn set(store: &mut SyncStore, key: &str, value: &str)
    requires
        old(store).wf(),
    ensures
        final(store).wf(),
        ({
            let s0 = old(store)@.settings;
            let row = (SettingView { key: key@, value: value@ });
            if has_key(s0, key@) {
                final(store)@ == (StoreView {
                    settings: s0.update(key_index(s0, key@), row),
                    ..old(store)@
                })
            } else {
                final(store)@ == (StoreView { settings: s0.push(row), ..old(store)@ })
            }
        }),
{
    let ghost s0 = store@.settings;
    let row = Setting { key: key.to_owned(), value: value.to_owned() };
    let ghost vrow = row@;
    match find_by_key(&store.settings, key) {
        Some(i) => {
            proof {
                lemma_key_index_is(s0, key@, i as int);
            }
            store.settings[i] = row;
            proof {
                lemma_views_update(old(store).settings@, i as int, store.settings@[i as int]);
                assert(store@.settings =~= s0.update(i as int, vrow));
                assert forall|a: int, b: int|
                    0 <= a < b < store@.settings.len() implies store@.settings[a].key
                    != store@.settings[b].key by {
                    assert(s0[a].key != s0[b].key);
                }
                assert(store@ =~= (StoreView { settings: s0.update(i as int, vrow), ..old(store)@ }));
            }
        },
        None => {
            store.settings.push(row);
            proof {
                lemma_views_push(old(store).settings@, store.settings@[s0.len() as int]);
                assert(store@.settings =~= s0.push(vrow));
                assert forall|a: int, b: int|
                    0 <= a < b < s0.push(vrow).len() implies s0.push(vrow)[a].key != s0.push(
                    vrow,
                )[b].key by {
                    if b == s0.len() {
                        assert(!(s0[a].key == vrow.key));
                    }
                }
                assert(store@ =~= (StoreView { settings: s0.push(vrow), ..old(store)@ }));
            }
        },
    }
}

} // verus!
