//! Settings items as far as searching and laying them out goes, and the label
//! a dropdown field shows.
use vstd::prelude::*;

verus! {

/// Direction in which a setting item places its field after its label.
#[derive(Clone, Copy, Debug, PartialEq, Eq, Structural)]
pub enum Axis {
    Horizontal,
    Vertical,
}

/// A setting item: a titled item with a field, or a custom element.
#[derive(Clone, Debug)]
pub enum SettingItem {
    /// A normal setting item with a title, description, and field.
    Item {
        title: String,
        description: Option<String>,
        keywords: Vec<String>,
        layout: Axis,
        disabled: bool,
    },
    /// A full custom element.
    Element { disabled: bool, keywords: Vec<String> },
}

/// Unicode lower case of `s` (`str::to_lowercase`).
pub uninterp spec fn lowercase(s: Seq<char>) -> Seq<char>;

/// `str::to_lowercase`: std's result depends on the characters of `s` alone
/// (no locale); it is named, not spelled out.
#[verifier::external_body]
fn to_lowercase(s: &str) -> (r: String)
    ensures
        r@ == lowercase(s@),
{
    s.to_lowercase()
}

/// `needle` occurs in `haystack` as a run of consecutive characters.
pub open spec fn contains_chars(haystack: Seq<char>, needle: Seq<char>) -> bool {
    exists|i: int|
        0 <= i && i + needle.len() <= haystack.len() && #[trigger] haystack.subrange(
            i,
            i + needle.len(),
        ) == needle
}

/// Some keyword contains `q` once lower-cased.
pub open spec fn keywords_match(keywords: Seq<String>, q: Seq<char>) -> bool {
    exists|k: int| 0 <= k < keywords.len() && contains_chars(lowercase(#[trigger] keywords[k]@), q)
}

/// Whether `item` is shown for the search `query`: an item whose title,
/// description or a keyword contains the query, ignoring case; a custom
/// element when there is no query, or when a keyword contains it.
pub open spec fn item_matches(item: SettingItem, query: Seq<char>) -> bool {
    let q = lowercase(query);
    match item {
        SettingItem::Item { title, description, keywords, .. } => {
            ||| contains_chars(lowercase(title@), q)
            ||| (description matches Some(d) && contains_chars(lowercase(d@), q))
            ||| keywords_match(keywords@, q)
        },
        SettingItem::Element { keywords, .. } => query.len() == 0 || keywords_match(keywords@, q),
    }
}

fn chars_of(s: &str) -> (r: Vec<char>)
    ensures
        r@ == s@,
{
    let mut out: Vec<char> = Vec::new();
    for c in it: s.chars()
        invariant
            it.seq() == s@,
            out@ == s@.take(it.index() as int),
    {
        proof {
            assert(s@[it.index() as int] == c);
        }
        out.push(c);
        assert(out@ =~= s@.take(it.index() + 1));
    }
    assert(s@.take(s@.len() as int) =~= s@);
    out
}

/// Whether `needle` occurs in `haystack` (`str::contains`).
pub fn contains_text(haystack: &str, needle: &str) -> (r: bool)
    ensures
        r == contains_chars(haystack@, needle@),
{
    let h = chars_of(haystack);
    let n = chars_of(needle);
    if n.len() == 0 {
        assert(haystack@.subrange(0, 0int + needle@.len()) =~= needle@);
        return true;
    }
    let hl = h.len();
    if n.len() > hl {
        return false;
    }
    let last = hl - n.len();
    let mut i: usize = 0;
    while i <= last
        invariant
            h@ == haystack@,
            n@ == needle@,
            hl == h@.len(),
            n@.len() > 0,
            last == h@.len() - n@.len(),
            i <= last + 1,
            forall|j: int| 0 <= j < i ==> #[trigger] h@.subrange(j, j + n@.len()) != n@,
        decreases last + 1 - i,
    {
        let mut k: usize = 0;
        while k < n.len() && h[i + k] == n[k]
            invariant
                i <= last,
                hl == h@.len(),
                last == h@.len() - n@.len(),
                k <= n@.len(),
                forall|m: int| 0 <= m < k ==> h@[i + m] == n@[m],
            decreases n@.len() - k,
        {
            k = k + 1;
        }
        if k == n.len() {
            assert(h@.subrange(i as int, i + n@.len()) =~= n@);
            return true;
        }
        assert(h@.subrange(i as int, i + n@.len())[k as int] != n@[k as int]);
        i = i + 1;
    }
    assert forall|j: int| 0 <= j && j + needle@.len() <= haystack@.len() implies #[trigger] haystack@.subrange(
        j,
        j + needle@.len(),
    ) != needle@ by {
        assert(j < i);
    }
    false
}

fn any_keyword_matches(keywords: &Vec<String>, q: &str) -> (r: bool)
    ensures
        r == keywords_match(keywords@, q@),
{
    let mut k: usize = 0;
    while k < keywords.len()
        invariant
            k <= keywords@.len(),
            forall|j: int| 0 <= j < k ==> !contains_chars(lowercase(#[trigger] keywords@[j]@), q@),
        decreases keywords@.len() - k,
    {
        let lower = to_lowercase(keywords[k].as_str());
        if contains_text(lower.as_str(), q) {
            return true;
        }
        k = k + 1;
    }
    false
}

impl SettingItem {
    /// A new item titled `title`, laid out horizontally, enabled, with no
    /// description and no keywords.
    pub fn new(title: &str) -> (r: Self)
        ensures
            r matches SettingItem::Item { title: t, description, keywords, layout, disabled } && t@
                == title@ && description is None && keywords@.len() == 0 && layout == Axis::Horizontal
                && !disabled,
    {
        SettingItem::Item {
            title: title.to_owned(),
            description: None,
            keywords: Vec::new(),
            layout: Axis::Horizontal,
            disabled: false,
        }
    }

    /// Set the keywords used only for search matching (not rendered).
    pub fn keywords(self, keywords: Vec<String>) -> (r: Self)
        ensures
            match (self, r) {
                (
                    SettingItem::Item { title, description, layout, disabled, .. },
                    SettingItem::Item { title: t2, description: d2, keywords: k2, layout: l2, disabled: x2 },
                ) => t2 == title && d2 == description && k2 == keywords && l2 == layout && x2
                    == disabled,
                (
                    SettingItem::Element { disabled, .. },
                    SettingItem::Element { disabled: x2, keywords: k2 },
                ) => x2 == disabled && k2 == keywords,
                _ => false,
            },
    {
        match self {
            SettingItem::Item { title, description, layout, disabled, .. } => SettingItem::Item {
                title,
                description,
                keywords,
                layout,
                disabled,
            },
            SettingItem::Element { disabled, .. } => SettingItem::Element { disabled, keywords },
        }
    }

    /// Set whether the item is disabled.
    pub fn disabled(self, disabled: bool) -> (r: Self)
        ensures
            match (self, r) {
                (
                    SettingItem::Item { title, description, keywords, layout, .. },
                    SettingItem::Item { title: t2, description: d2, keywords: k2, layout: l2, disabled: x2 },
                ) => t2 == title && d2 == description && k2 == keywords && l2 == layout && x2
                    == disabled,
                (
                    SettingItem::Element { keywords, .. },
                    SettingItem::Element { disabled: x2, keywords: k2 },
                ) => x2 == disabled && k2 == keywords,
                _ => false,
            },
    {
        match self {
            SettingItem::Item { title, description, keywords, layout, .. } => SettingItem::Item {
                title,
                description,
                keywords,
                layout,
                disabled,
            },
            SettingItem::Element { keywords, .. } => SettingItem::Element { disabled, keywords },
        }
    }

    /// Set the description; a custom element is left as it is.
    pub fn description(self, description: &str) -> (r: Self)
        ensures
            match (self, r) {
                (
                    SettingItem::Item { title, keywords, layout, disabled, .. },
                    SettingItem::Item { title: t2, description: d2, keywords: k2, layout: l2, disabled: x2 },
                ) => t2 == title && (d2 matches Some(d) && d@ == description@) && k2 == keywords
                    && l2 == layout && x2 == disabled,
                (SettingItem::Element { .. }, SettingItem::Element { .. }) => r == self,
                _ => false,
            },
    {
        match self {
            SettingItem::Item { title, keywords, layout, disabled, .. } => SettingItem::Item {
                title,
                description: Some(description.to_owned()),
                keywords,
                layout,
                disabled,
            },
            SettingItem::Element { disabled, keywords } => SettingItem::Element { disabled, keywords },
        }
    }

    /// Set the layout; a custom element is left as it is.
    pub fn layout(self, layout: Axis) -> (r: Self)
        ensures
            match (self, r) {
                (
                    SettingItem::Item { title, description, keywords, disabled, .. },
                    SettingItem::Item { title: t2, description: d2, keywords: k2, layout: l2, disabled: x2 },
                ) => t2 == title && d2 == description && k2 == keywords && l2 == layout && x2
                    == disabled,
                (SettingItem::Element { .. }, SettingItem::Element { .. }) => r == self,
                _ => false,
            },
    {
        match self {
            SettingItem::Item { title, description, keywords, disabled, .. } => SettingItem::Item {
                title,
                description,
                keywords,
                layout,
                disabled,
            },
            SettingItem::Element { disabled, keywords } => SettingItem::Element { disabled, keywords },
        }
    }

    /// The layout an item is drawn with on a page laid out along `page`: a
    /// vertical page forces a vertical item; otherwise its own layout stands.
    /// A custom element has none.
    pub fn effective_layout(&self, page: Axis) -> (r: Option<Axis>)
        ensures
            r == match *self {
                SettingItem::Item { layout, .. } => Some(
                    if page == Axis::Vertical {
                        Axis::Vertical
                    } else {
                        layout
                    },
                ),
                SettingItem::Element { .. } => None,
            },
    {
        match self {
            SettingItem::Item { layout, .. } => {
                if page == Axis::Vertical {
                    Some(Axis::Vertical)
                } else {
                    Some(*layout)
                }
            },
            SettingItem::Element { .. } => None,
        }
    }

    /// Whether the item is shown for the search `query` (see [`item_matches`]).
    pub fn is_match(&self, query: &str) -> (r: bool)
        ensures
            r == item_matches(*self, query@),
    {
        let lower = to_lowercase(query);
        let q = lower.as_str();
        match self {
            SettingItem::Item { title, description, keywords, .. } => {
                let t = to_lowercase(title.as_str());
                if contains_text(t.as_str(), q) {
                    return true;
                }
                match description {
                    Some(d) => {
                        let dl = to_lowercase(d.as_str());
                        if contains_text(dl.as_str(), q) {
                            return true;
                        }
                    },
                    None => {},
                }
                any_keyword_matches(keywords, q)
            },
            SettingItem::Element { keywords, .. } => {
                query.is_empty() || any_keyword_matches(keywords, q)
            },
        }
    }
}

} // verus!

verus! {

/// A dropdown setting field: `(value, label)` options, and whether the menu
/// scrolls.
pub struct DropdownField {
    options: Vec<(String, String)>,
    scrollable: bool,
}

/// The options seen as pairs of character sequences.
pub open spec fn options_view(options: Seq<(String, String)>) -> Seq<(Seq<char>, Seq<char>)> {
    Seq::new(options.len(), |k: int| (options[k].0@, options[k].1@))
}

/// The label of the first option whose value is `value`, or `value` itself
/// when no option has it.
pub open spec fn option_label(options: Seq<(Seq<char>, Seq<char>)>, value: Seq<char>) -> Seq<char>
    decreases options.len(),
{
    if options.len() == 0 {
        value
    } else if options[0].0 == value {
        options[0].1
    } else {
        option_label(options.drop_first(), value)
    }
}

proof fn lemma_option_label_skip(options: Seq<(Seq<char>, Seq<char>)>, value: Seq<char>, k: int)
    requires
        0 <= k < options.len(),
        forall|j: int| 0 <= j < k ==> (#[trigger] options[j]).0 != value,
    ensures
        option_label(options, value) == option_label(options.skip(k), value),
    decreases k,
{
    if k > 0 {
        let rest = options.drop_first();
        assert forall|j: int| 0 <= j < k - 1 implies (#[trigger] rest[j]).0 != value by {
            assert(rest[j] == options[j + 1]);
        }
        lemma_option_label_skip(rest, value, k - 1);
        assert(rest.skip(k - 1) =~= options.skip(k));
    } else {
        assert(options.skip(0) =~= options);
    }
}

proof fn lemma_option_label_none(options: Seq<(Seq<char>, Seq<char>)>, value: Seq<char>)
    requires
        forall|j: int| 0 <= j < options.len() ==> (#[trigger] options[j]).0 != value,
    ensures
        option_label(options, value) == value,
    decreases options.len(),
{
    if options.len() > 0 {
        let rest = options.drop_first();
        assert forall|j: int| 0 <= j < rest.len() implies (#[trigger] rest[j]).0 != value by {
            assert(rest[j] == options[j + 1]);
        }
        lemma_option_label_none(rest, value);
    }
}

impl DropdownField {
    pub closed spec fn options_spec(&self) -> Seq<(Seq<char>, Seq<char>)> {
        options_view(self.options@)
    }

    pub closed spec fn scrollable_spec(&self) -> bool {
        self.scrollable
    }

    /// A field with the given options (none when `None`).
    pub fn new(options: Option<&Vec<(String, String)>>, scrollable: bool) -> (r: Self)
        ensures
            r.options_spec() == match options {
                Some(o) => options_view(o@),
                None => Seq::empty(),
            },
            r.scrollable_spec() == scrollable,
    {
        let mut copied: Vec<(String, String)> = Vec::new();
        match options {
            Some(o) => {
                let mut k: usize = 0;
                while k < o.len()
                    invariant
                        k <= o@.len(),
                        copied@ == o@.take(k as int),
                    decreases o@.len() - k,
                {
                    let value = o[k].0.clone();
                    let label = o[k].1.clone();
                    copied.push((value, label));
                    assert(copied@ =~= o@.take(k + 1));
                    k = k + 1;
                }
                assert(o@.take(o@.len() as int) =~= o@);
            },
            None => {},
        }
        DropdownField { options: copied, scrollable }
    }

    /// Whether the option menu scrolls.
    pub fn scrollable(&self) -> (r: bool)
        ensures
            r == self.scrollable_spec(),
    {
        self.scrollable
    }

    /// The label shown for the current `value` (see [`option_label`]).
    pub fn label_for(&self, value: &String) -> (r: String)
        ensures
            r@ == option_label(self.options_spec(), value@),
    {
        let ghost view = options_view(self.options@);
        let n = self.options.len();
        let mut k: usize = 0;
        while k < n
            invariant
                n == self.options@.len(),
                view == options_view(self.options@),
                k <= n,
                forall|j: int| 0 <= j < k ==> (#[trigger] view[j]).0 != value@,
            decreases n - k,
        {
            if self.options[k].0 == *value {
                proof {
                    lemma_option_label_skip(view, value@, k as int);
                    assert(view.skip(k as int)[0] == view[k as int]);
                }
                return self.options[k].1.clone();
            }
            assert(view[k as int].0 == self.options@[k as int].0@);
            k = k + 1;
        }
        proof {
            lemma_option_label_none(view, value@);
        }
        value.clone()
    }
}

} // verus!

verus! {

/// The same strings once lower-cased, in order.
pub open spec fn same_words_but_case(a: Seq<String>, b: Seq<String>) -> bool {
    &&& a.len() == b.len()
    &&& forall|i: int| 0 <= i < a.len() ==> lowercase(#[trigger] a[i]@) == lowercase(b[i]@)
}

/// Two items that differ at most in the letter case of their searched text
/// (title, description, keywords).
pub open spec fn same_but_case(a: SettingItem, b: SettingItem) -> bool {
    match (a, b) {
        (
            SettingItem::Item { title: t1, description: d1, keywords: k1, .. },
            SettingItem::Item { title: t2, description: d2, keywords: k2, .. },
        ) => {
            &&& lowercase(t1@) == lowercase(t2@)
            &&& (d1 is None <==> d2 is None)
            &&& (d1 matches Some(x) ==> d2 matches Some(y) && lowercase(x@) == lowercase(y@))
            &&& same_words_but_case(k1@, k2@)
        },
        (SettingItem::Element { keywords: k1, .. }, SettingItem::Element { keywords: k2, .. }) => {
            same_words_but_case(k1@, k2@)
        },
        _ => false,
    }
}

proof fn lemma_keywords_ignore_case(k1: Seq<String>, k2: Seq<String>, q: Seq<char>)
    requires
        same_words_but_case(k1, k2),
    ensures
        keywords_match(k1, q) == keywords_match(k2, q),
{
    if keywords_match(k1, q) {
        let i = choose|i: int| 0 <= i < k1.len() && contains_chars(lowercase(#[trigger] k1[i]@), q);
        assert(lowercase(k1[i]@) == lowercase(k2[i]@));
    }
    if keywords_match(k2, q) {
        let i = choose|i: int| 0 <= i < k2.len() && contains_chars(lowercase(#[trigger] k2[i]@), q);
        assert(lowercase(k1[i]@) == lowercase(k2[i]@));
    }
}

/// Law: search ignores case. Changing the letter case of an item's title,
/// description or keywords, or of the query, never changes whether the item
/// matches (as long as the query stays empty or non-empty).
pub proof fn law_search_ignores_case(a: SettingItem, b: SettingItem, q1: Seq<char>, q2: Seq<char>)
    requires
        same_but_case(a, b),
        lowercase(q1) == lowercase(q2),
        q1.len() == 0 <==> q2.len() == 0,
    ensures
        item_matches(a, q1) == item_matches(b, q2),
{
    match (a, b) {
        (
            SettingItem::Item { keywords: k1, .. },
            SettingItem::Item { keywords: k2, .. },
        ) => {
            lemma_keywords_ignore_case(k1@, k2@, lowercase(q1));
        },
        (SettingItem::Element { keywords: k1, .. }, SettingItem::Element { keywords: k2, .. }) => {
            lemma_keywords_ignore_case(k1@, k2@, lowercase(q1));
        },
        _ => {},
    }
}

/// Law: an item matches whenever the lower-cased query occurs in its
/// lower-cased title, description or some keyword; a custom element matches
/// the empty query and whenever the lower-cased query occurs in one of its
/// lower-cased keywords.
pub proof fn law_search_finds_each_field(item: SettingItem, q: Seq<char>, i: int)
    ensures
        item matches SettingItem::Item { title, .. } && contains_chars(lowercase(title@), lowercase(q))
            ==> item_matches(item, q),
        item matches SettingItem::Item { description: Some(d), .. } && contains_chars(
            lowercase(d@),
            lowercase(q),
        ) ==> item_matches(item, q),
        item matches SettingItem::Item { keywords, .. } && 0 <= i < keywords@.len()
            && contains_chars(lowercase(keywords@[i]@), lowercase(q)) ==> item_matches(item, q),
        item matches SettingItem::Element { keywords, .. } && 0 <= i < keywords@.len()
            && contains_chars(lowercase(keywords@[i]@), lowercase(q)) ==> item_matches(item, q),
        item is Element && q.len() == 0 ==> item_matches(item, q),
{
}

} // verus!
