//! Bundled assets: the fonts, icons and artwork the interface loads by
//! name, and decoding of bundled images into RGBA pixels.
use vstd::prelude::*;
use crate::components::ScaleMode;
use image::GenericImageView;

verus! {

/// The fonts bundled with the application.
#[derive(Debug, Clone, Copy, PartialEq, Eq, Structural)]
pub enum AppFonts {
    CenturyGothic,
    CenturyGothicBold,
}

impl Default for AppFonts {
    fn default() -> (r: Self)
        ensures
            r == AppFonts::CenturyGothic,
    {
        AppFonts::CenturyGothic
    }
}

impl AppFonts {
    /// The asset key the font file is stored under.
    pub fn as_str(&self) -> (r: &'static str)
        ensures
            r@ == (match *self {
                AppFonts::CenturyGothic => "CenturyGothic"@,
                AppFonts::CenturyGothicBold => "CenturyGothicBold"@,
            }),
    {
        match self {
            AppFonts::CenturyGothic => "CenturyGothic",
            AppFonts::CenturyGothicBold => "CenturyGothicBold",
        }
    }

    /// The family name the font declares; both weights share it.
    pub fn as_family_name(&self) -> (r: &'static str)
        ensures
            r@ == "Century Gothic"@,
    {
        match self {
            AppFonts::CenturyGothic => "Century Gothic",
            AppFonts::CenturyGothicBold => "Century Gothic",
        }
    }
}

/// Why an image asset could not be loaded.
#[derive(Debug, Clone, Copy, PartialEq, Eq, Structural)]
pub enum AssetError {
    /// No asset is stored under the name.
    NotFound,
    /// The stored bytes are not an image that can be decoded.
    ImageLoadError,
}

/// The assets the application bundles: the path of each file below the
/// asset folder, and the name it is looked up by.
pub open spec fn manifest() -> Seq<(Seq<char>, Seq<char>)> {
    seq![
        ("icons/close.png"@, "close.png"@),
        ("icons/minimize.png"@, "minimize.png"@),
        ("icons/maximize.png"@, "maximize.png"@),
        ("icons/settings.png"@, "settings.png"@),
        ("icons/shuffle.png"@, "shuffle.png"@),
        ("icons/repeat.png"@, "repeat.png"@),
        ("icons/skip-back.png"@, "skip-back.png"@),
        ("icons/play.png"@, "play.png"@),
        ("icons/pause.png"@, "pause.png"@),
        ("icons/skip-forward.png"@, "skip-forward.png"@),
        ("icons/volume.png"@, "volume.png"@),
        ("album_art.png"@, "album_art.png"@),
        ("frostify_logo.png"@, "frostify_logo.png"@),
        ("test.png"@, "test.png"@),
        ("fonts/CenturyGothic.ttf"@, "CenturyGothic"@),
        ("fonts/CenturyGothicBold.ttf"@, "CenturyGothicBold"@),
    ]
}

/// The bundled assets: for each, its path below the asset folder and the
/// name it is looked up by.
pub fn asset_manifest() -> (r: Vec<(&'static str, &'static str)>)
    ensures
        r@.map_values(|p: (&'static str, &'static str)| (p.0@, p.1@)) == manifest(),
{
    let r = vec![
        ("icons/close.png", "close.png"),
        ("icons/minimize.png", "minimize.png"),
        ("icons/maximize.png", "maximize.png"),
        ("icons/settings.png", "settings.png"),
        ("icons/shuffle.png", "shuffle.png"),
        ("icons/repeat.png", "repeat.png"),
        ("icons/skip-back.png", "skip-back.png"),
        ("icons/play.png", "play.png"),
        ("icons/pause.png", "pause.png"),
        ("icons/skip-forward.png", "skip-forward.png"),
        ("icons/volume.png", "volume.png"),
        ("album_art.png", "album_art.png"),
        ("frostify_logo.png", "frostify_logo.png"),
        ("test.png", "test.png"),
        ("fonts/CenturyGothic.ttf", "CenturyGothic"),
        ("fonts/CenturyGothicBold.ttf", "CenturyGothicBold"),
    ];
    proof {
        assert(r@.map_values(|p: (&'static str, &'static str)| (p.0@, p.1@)) =~= manifest());
    }
    r
}

/// Name and bytes of a stored asset.
pub open spec fn entry_view(e: (String, Vec<u8>)) -> (Seq<char>, Seq<u8>) {
    (e.0@, e.1@)
}

/// Stored assets by name; a later entry under a name replaces an earlier one.
pub open spec fn entries_map(s: Seq<(Seq<char>, Seq<u8>)>) -> Map<Seq<char>, Seq<u8>>
    decreases s.len(),
{
    if s.len() == 0 {
        Map::empty()
    } else {
        entries_map(s.drop_last()).insert(s.last().0, s.last().1)
    }
}

/// Assets stored under `keys`, the `i`-th key holding `contents[i]`.
pub open spec fn keyed_contents(keys: Seq<Seq<char>>, contents: Seq<Seq<u8>>) -> Map<Seq<char>, Seq<u8>>
    decreases keys.len(),
{
    if keys.len() == 0 || contents.len() == 0 {
        Map::empty()
    } else {
        keyed_contents(keys.drop_last(), contents.drop_last()).insert(keys.last(), contents.last())
    }
}

/// Asset bytes by name.
pub struct AssetStore {
    entries: Vec<(String, Vec<u8>)>,
}

impl View for AssetStore {
    type V = Map<Seq<char>, Seq<u8>>;

    closed spec fn view(&self) -> Map<Seq<char>, Seq<u8>> {
        entries_map(self.entries@.map_values(|e: (String, Vec<u8>)| entry_view(e)))
    }
}

impl AssetStore {
    pub fn new() -> (r: Self)
        ensures
            r@ == Map::<Seq<char>, Seq<u8>>::empty(),
    {
        let r = AssetStore { entries: Vec::new() };
        proof {
            assert(r.entries@.map_values(|e: (String, Vec<u8>)| entry_view(e)) =~= Seq::<(Seq<char>, Seq<u8>)>::empty());
        }
        r
    }

    /// Store `bytes` under `name`, replacing what was stored under it.
    pub fn insert(&mut self, name: String, bytes: Vec<u8>)
        ensures
            final(self)@ == old(self)@.insert(name@, bytes@),
    {
        let ghost before = self.entries@;
        self.entries.push((name, bytes));
        proof {
            assert(self.entries@.map_values(|e: (String, Vec<u8>)| entry_view(e)).drop_last()
                =~= before.map_values(|e: (String, Vec<u8>)| entry_view(e)));
        }
    }

    /// The bytes stored under `name`.
    pub fn get(&self, name: &str) -> (r: Option<&[u8]>)
        ensures
            match r {
                Some(b) => self@.contains_key(name@) && b@ == self@[name@],
                None => !self@.contains_key(name@),
            },
    {
        let key = name.to_owned();
        let ghost vs = self.entries@.map_values(|e: (String, Vec<u8>)| entry_view(e));
        let mut i: usize = self.entries.len();
        while i > 0
            invariant
                i <= self.entries@.len(),
                vs == self.entries@.map_values(|e: (String, Vec<u8>)| entry_view(e)),
                key@ == name@,
                forall|l: int| i <= l < vs.len() ==> (#[trigger] vs[l]).0 != name@,
            decreases i,
        {
            if self.entries[i - 1].0 == key {
                proof {
                    lemma_entries_map_last(vs, i - 1, name@);
                }
                return Some(self.entries[i - 1].1.as_slice());
            }
            i = i - 1;
        }
        proof {
            lemma_entries_map_absent(vs, name@);
        }
        None
    }
}

/// The entry stored last under `k` is what the map holds for `k`.
proof fn lemma_entries_map_last(vs: Seq<(Seq<char>, Seq<u8>)>, j: int, k: Seq<char>)
    requires
        0 <= j < vs.len(),
        vs[j].0 == k,
        forall|l: int| j < l < vs.len() ==> (#[trigger] vs[l]).0 != k,
    ensures
        entries_map(vs).contains_key(k),
        entries_map(vs)[k] == vs[j].1,
    decreases vs.len(),
{
    if j < vs.len() - 1 {
        let init = vs.drop_last();
        assert forall|l: int| j < l < init.len() implies (#[trigger] init[l]).0 != k by {
            assert(init[l] == vs[l]);
        }
        assert(vs[vs.len() - 1].0 != k);
        lemma_entries_map_last(init, j, k);
    }
}

/// No entry under `k` leaves `k` out of the map.
proof fn lemma_entries_map_absent(vs: Seq<(Seq<char>, Seq<u8>)>, k: Seq<char>)
    requires
        forall|l: int| 0 <= l < vs.len() ==> (#[trigger] vs[l]).0 != k,
    ensures
        !entries_map(vs).contains_key(k),
    decreases vs.len(),
{
    if vs.len() > 0 {
        let init = vs.drop_last();
        assert forall|l: int| 0 <= l < init.len() implies (#[trigger] init[l]).0 != k by {
            assert(init[l] == vs[l]);
        }
        assert(vs[vs.len() - 1].0 != k);
        lemma_entries_map_absent(init, k);
    }
}

/// The bytes of the asset stored under `file_name`.
pub fn get_asset<'a>(store: &'a AssetStore, file_name: &str) -> (r: Option<&'a [u8]>)
    ensures
        match r {
            Some(b) => store@.contains_key(file_name@) && b@ == store@[file_name@],
            None => !store@.contains_key(file_name@),
        },
{
    store.get(file_name)
}

/// Build the store from the contents of the bundled files, `contents[i]`
/// being the bytes of the `i`-th file of [`asset_manifest`].
pub fn initialize_assets(contents: Vec<Vec<u8>>) -> (r: AssetStore)
    requires
        contents@.len() == manifest().len(),
    ensures
        r@ == keyed_contents(
            manifest().map_values(|p: (Seq<char>, Seq<char>)| p.1),
            contents@.map_values(|v: Vec<u8>| v@),
        ),
{
    let files = asset_manifest();
    let ghost keys = manifest().map_values(|p: (Seq<char>, Seq<char>)| p.1);
    let ghost all = contents@.map_values(|v: Vec<u8>| v@);
    let mut rest = contents;
    let mut store = AssetStore::new();
    let mut i: usize = 0;
    proof {
        assert(rest@.map_values(|v: Vec<u8>| v@) =~= all.skip(0));
        assert(keys.take(0) =~= Seq::<Seq<char>>::empty());
    }
    while i < files.len()
        invariant
            files@.map_values(|p: (&'static str, &'static str)| (p.0@, p.1@)) == manifest(),
            keys == manifest().map_values(|p: (Seq<char>, Seq<char>)| p.1),
            all.len() == manifest().len(),
            i <= files@.len(),
            rest@.map_values(|v: Vec<u8>| v@) == all.skip(i as int),
            store@ == keyed_contents(keys.take(i as int), all.take(i as int)),
        decreases files@.len() - i,
    {
        proof {
            assert(files@.map_values(|p: (&'static str, &'static str)| (p.0@, p.1@)).len() == files@.len());
            assert(rest@.map_values(|v: Vec<u8>| v@).len() == rest@.len());
            assert(rest@.map_values(|v: Vec<u8>| v@)[0] == rest@[0]@);
        }
        let ghost before = rest@;
        let bytes = rest.remove(0);
        let name = files[i].1.to_owned();
        proof {
            assert(files@.map_values(|p: (&'static str, &'static str)| (p.0@, p.1@))[i as int] == manifest()[i as int]);
            assert(name@ == keys[i as int]);
            assert(bytes@ == all.skip(i as int)[0]);
            assert(rest@ =~= before.subrange(1, before.len() as int));
            let rv = rest@.map_values(|v: Vec<u8>| v@);
            let tail = all.skip(i + 1);
            assert forall|k: int| 0 <= k < rest@.len() implies #[trigger] rv[k] == tail[k] by {
                assert(rest@[k] == before[k + 1]);
                assert(before.map_values(|v: Vec<u8>| v@)[k + 1] == all.skip(i as int)[k + 1]);
            }
            assert(rest@.map_values(|v: Vec<u8>| v@) =~= all.skip(i + 1));
            assert(keys.take(i + 1).drop_last() =~= keys.take(i as int));
            assert(all.take(i + 1).drop_last() =~= all.take(i as int));
        }
        store.insert(name, bytes);
        i += 1;
    }
    proof {
        assert(keys.take(i as int) =~= keys);
        assert(all.take(i as int) =~= all);
    }
    store
}

/// The icons of the interface.
#[derive(Debug, Clone, Copy, PartialEq, Eq, Structural)]
pub enum Icon {
    Menu,
    ChevronLeft,
    ChevronRight,
    Settings,
    Bell,
    Play,
    Pause,
    SkipBack,
    SkipForward,
    Shuffle,
    Repeat,
    Volume,
    Minimize,
    Maximize,
    Close,
    Home,
    Search,
    Plus,
    Heart,
}

/// The SVG file an icon is drawn from, below the asset folder.
pub open spec fn icon_file(icon: Icon) -> Seq<char> {
    match icon {
        Icon::Menu => "icons/menu.svg"@,
        Icon::ChevronLeft => "icons/chevron-left.svg"@,
        Icon::ChevronRight => "icons/chevron-right.svg"@,
        Icon::Settings => "icons/settings.svg"@,
        Icon::Bell => "icons/bell.svg"@,
        Icon::Play => "icons/play.svg"@,
        Icon::Pause => "icons/pause.svg"@,
        Icon::SkipBack => "icons/skip-back.svg"@,
        Icon::SkipForward => "icons/skip-forward.svg"@,
        Icon::Shuffle => "icons/shuffle.svg"@,
        Icon::Repeat => "icons/repeat.svg"@,
        Icon::Volume => "icons/volume.svg"@,
        Icon::Minimize => "icons/minimize.svg"@,
        Icon::Maximize => "icons/maximize.svg"@,
        Icon::Close => "icons/close.svg"@,
        Icon::Home => "icons/home.svg"@,
        Icon::Search => "icons/search.svg"@,
        Icon::Plus => "icons/plus.svg"@,
        Icon::Heart => "icons/heart.svg"@,
    }
}

/// The name of an icon's variant, as written in the source.
pub open spec fn variant_name(icon: Icon) -> Seq<char> {
    match icon {
        Icon::Menu => seq!['M', 'e', 'n', 'u'],
        Icon::ChevronLeft => seq!['C', 'h', 'e', 'v', 'r', 'o', 'n', 'L', 'e', 'f', 't'],
        Icon::ChevronRight => seq!['C', 'h', 'e', 'v', 'r', 'o', 'n', 'R', 'i', 'g', 'h', 't'],
        Icon::Settings => seq!['S', 'e', 't', 't', 'i', 'n', 'g', 's'],
        Icon::Bell => seq!['B', 'e', 'l', 'l'],
        Icon::Play => seq!['P', 'l', 'a', 'y'],
        Icon::Pause => seq!['P', 'a', 'u', 's', 'e'],
        Icon::SkipBack => seq!['S', 'k', 'i', 'p', 'B', 'a', 'c', 'k'],
        Icon::SkipForward => seq!['S', 'k', 'i', 'p', 'F', 'o', 'r', 'w', 'a', 'r', 'd'],
        Icon::Shuffle => seq!['S', 'h', 'u', 'f', 'f', 'l', 'e'],
        Icon::Repeat => seq!['R', 'e', 'p', 'e', 'a', 't'],
        Icon::Volume => seq!['V', 'o', 'l', 'u', 'm', 'e'],
        Icon::Minimize => seq!['M', 'i', 'n', 'i', 'm', 'i', 'z', 'e'],
        Icon::Maximize => seq!['M', 'a', 'x', 'i', 'm', 'i', 'z', 'e'],
        Icon::Close => seq!['C', 'l', 'o', 's', 'e'],
        Icon::Home => seq!['H', 'o', 'm', 'e'],
        Icon::Search => seq!['S', 'e', 'a', 'r', 'c', 'h'],
        Icon::Plus => seq!['P', 'l', 'u', 's'],
        Icon::Heart => seq!['H', 'e', 'a', 'r', 't'],
    }
}

/// Whether `c` is an ASCII capital letter.
pub open spec fn is_capital(c: char) -> bool {
    'A' <= c && c <= 'Z'
}

/// `c` in lower case (ASCII capitals become small letters; anything else stays).
pub open spec fn lower(c: char) -> char {
    if c == 'A' {
        'a'
    } else if c == 'B' {
        'b'
    } else if c == 'C' {
        'c'
    } else if c == 'D' {
        'd'
    } else if c == 'E' {
        'e'
    } else if c == 'F' {
        'f'
    } else if c == 'G' {
        'g'
    } else if c == 'H' {
        'h'
    } else if c == 'I' {
        'i'
    } else if c == 'J' {
        'j'
    } else if c == 'K' {
        'k'
    } else if c == 'L' {
        'l'
    } else if c == 'M' {
        'm'
    } else if c == 'N' {
        'n'
    } else if c == 'O' {
        'o'
    } else if c == 'P' {
        'p'
    } else if c == 'Q' {
        'q'
    } else if c == 'R' {
        'r'
    } else if c == 'S' {
        's'
    } else if c == 'T' {
        't'
    } else if c == 'U' {
        'u'
    } else if c == 'V' {
        'v'
    } else if c == 'W' {
        'w'
    } else if c == 'X' {
        'x'
    } else if c == 'Y' {
        'y'
    } else if c == 'Z' {
        'z'
    } else {
        c
    }
}

/// `s` in kebab case: lower case, with a hyphen before every capital but the first.
pub open spec fn kebab(s: Seq<char>) -> Seq<char>
    decreases s.len(),
{
    if s.len() == 0 {
        Seq::empty()
    } else {
        let prev = kebab(s.drop_last());
        if is_capital(s.last()) && s.len() > 1 {
            prev + seq!['-', lower(s.last())]
        } else {
            prev.push(lower(s.last()))
        }
    }
}

proof fn lemma_kebab_menu()
    ensures
        kebab(variant_name(Icon::Menu)) == seq!['m', 'e', 'n', 'u'],
{
    assert(kebab(Seq::<char>::empty()) =~= Seq::<char>::empty());
    assert(seq!['M'].drop_last() =~= Seq::<char>::empty());
    assert(kebab(seq!['M']) =~= seq!['m']);
    assert(seq!['M', 'e'].drop_last() =~= seq!['M']);
    assert(kebab(seq!['M', 'e']) =~= seq!['m', 'e']);
    assert(seq!['M', 'e', 'n'].drop_last() =~= seq!['M', 'e']);
    assert(kebab(seq!['M', 'e', 'n']) =~= seq!['m', 'e', 'n']);
    assert(seq!['M', 'e', 'n', 'u'].drop_last() =~= seq!['M', 'e', 'n']);
    assert(kebab(seq!['M', 'e', 'n', 'u']) =~= seq!['m', 'e', 'n', 'u']);
}

proof fn lemma_kebab_chevron_left()
    ensures
        kebab(variant_name(Icon::ChevronLeft)) == seq!['c', 'h', 'e', 'v', 'r', 'o', 'n', '-', 'l', 'e', 'f', 't'],
{
    assert(kebab(Seq::<char>::empty()) =~= Seq::<char>::empty());
    assert(seq!['C'].drop_last() =~= Seq::<char>::empty());
    assert(kebab(seq!['C']) =~= seq!['c']);
    assert(seq!['C', 'h'].drop_last() =~= seq!['C']);
    assert(kebab(seq!['C', 'h']) =~= seq!['c', 'h']);
    assert(seq!['C', 'h', 'e'].drop_last() =~= seq!['C', 'h']);
    assert(kebab(seq!['C', 'h', 'e']) =~= seq!['c', 'h', 'e']);
    assert(seq!['C', 'h', 'e', 'v'].drop_last() =~= seq!['C', 'h', 'e']);
    assert(kebab(seq!['C', 'h', 'e', 'v']) =~= seq!['c', 'h', 'e', 'v']);
    assert(seq!['C', 'h', 'e', 'v', 'r'].drop_last() =~= seq!['C', 'h', 'e', 'v']);
    assert(kebab(seq!['C', 'h', 'e', 'v', 'r']) =~= seq!['c', 'h', 'e', 'v', 'r']);
    assert(seq!['C', 'h', 'e', 'v', 'r', 'o'].drop_last() =~= seq!['C', 'h', 'e', 'v', 'r']);
    assert(kebab(seq!['C', 'h', 'e', 'v', 'r', 'o']) =~= seq!['c', 'h', 'e', 'v', 'r', 'o']);
    assert(seq!['C', 'h', 'e', 'v', 'r', 'o', 'n'].drop_last() =~= seq!['C', 'h', 'e', 'v', 'r', 'o']);
    assert(kebab(seq!['C', 'h', 'e', 'v', 'r', 'o', 'n']) =~= seq!['c', 'h', 'e', 'v', 'r', 'o', 'n']);
    assert(seq!['C', 'h', 'e', 'v', 'r', 'o', 'n', 'L'].drop_last() =~= seq!['C', 'h', 'e', 'v', 'r', 'o', 'n']);
    assert(kebab(seq!['C', 'h', 'e', 'v', 'r', 'o', 'n', 'L']) =~= seq!['c', 'h', 'e', 'v', 'r', 'o', 'n', '-', 'l']);
    assert(seq!['C', 'h', 'e', 'v', 'r', 'o', 'n', 'L', 'e'].drop_last() =~= seq!['C', 'h', 'e', 'v', 'r', 'o', 'n', 'L']);
    assert(kebab(seq!['C', 'h', 'e', 'v', 'r', 'o', 'n', 'L', 'e']) =~= seq!['c', 'h', 'e', 'v', 'r', 'o', 'n', '-', 'l', 'e']);
    assert(seq!['C', 'h', 'e', 'v', 'r', 'o', 'n', 'L', 'e', 'f'].drop_last() =~= seq!['C', 'h', 'e', 'v', 'r', 'o', 'n', 'L', 'e']);
    assert(kebab(seq!['C', 'h', 'e', 'v', 'r', 'o', 'n', 'L', 'e', 'f']) =~= seq!['c', 'h', 'e', 'v', 'r', 'o', 'n', '-', 'l', 'e', 'f']);
    assert(seq!['C', 'h', 'e', 'v', 'r', 'o', 'n', 'L', 'e', 'f', 't'].drop_last() =~= seq!['C', 'h', 'e', 'v', 'r', 'o', 'n', 'L', 'e', 'f']);
    assert(kebab(seq!['C', 'h', 'e', 'v', 'r', 'o', 'n', 'L', 'e', 'f', 't']) =~= seq!['c', 'h', 'e', 'v', 'r', 'o', 'n', '-', 'l', 'e', 'f', 't']);
}

proof fn lemma_kebab_chevron_right()
    ensures
        kebab(variant_name(Icon::ChevronRight)) == seq!['c', 'h', 'e', 'v', 'r', 'o', 'n', '-', 'r', 'i', 'g', 'h', 't'],
{
    assert(kebab(Seq::<char>::empty()) =~= Seq::<char>::empty());
    assert(seq!['C'].drop_last() =~= Seq::<char>::empty());
    assert(kebab(seq!['C']) =~= seq!['c']);
    assert(seq!['C', 'h'].drop_last() =~= seq!['C']);
    assert(kebab(seq!['C', 'h']) =~= seq!['c', 'h']);
    assert(seq!['C', 'h', 'e'].drop_last() =~= seq!['C', 'h']);
    assert(kebab(seq!['C', 'h', 'e']) =~= seq!['c', 'h', 'e']);
    assert(seq!['C', 'h', 'e', 'v'].drop_last() =~= seq!['C', 'h', 'e']);
    assert(kebab(seq!['C', 'h', 'e', 'v']) =~= seq!['c', 'h', 'e', 'v']);
    assert(seq!['C', 'h', 'e', 'v', 'r'].drop_last() =~= seq!['C', 'h', 'e', 'v']);
    assert(kebab(seq!['C', 'h', 'e', 'v', 'r']) =~= seq!['c', 'h', 'e', 'v', 'r']);
    assert(seq!['C', 'h', 'e', 'v', 'r', 'o'].drop_last() =~= seq!['C', 'h', 'e', 'v', 'r']);
    assert(kebab(seq!['C', 'h', 'e', 'v', 'r', 'o']) =~= seq!['c', 'h', 'e', 'v', 'r', 'o']);
    assert(seq!['C', 'h', 'e', 'v', 'r', 'o', 'n'].drop_last() =~= seq!['C', 'h', 'e', 'v', 'r', 'o']);
    assert(kebab(seq!['C', 'h', 'e', 'v', 'r', 'o', 'n']) =~= seq!['c', 'h', 'e', 'v', 'r', 'o', 'n']);
    assert(seq!['C', 'h', 'e', 'v', 'r', 'o', 'n', 'R'].drop_last() =~= seq!['C', 'h', 'e', 'v', 'r', 'o', 'n']);
    assert(kebab(seq!['C', 'h', 'e', 'v', 'r', 'o', 'n', 'R']) =~= seq!['c', 'h', 'e', 'v', 'r', 'o', 'n', '-', 'r']);
    assert(seq!['C', 'h', 'e', 'v', 'r', 'o', 'n', 'R', 'i'].drop_last() =~= seq!['C', 'h', 'e', 'v', 'r', 'o', 'n', 'R']);
    assert(kebab(seq!['C', 'h', 'e', 'v', 'r', 'o', 'n', 'R', 'i']) =~= seq!['c', 'h', 'e', 'v', 'r', 'o', 'n', '-', 'r', 'i']);
    assert(seq!['C', 'h', 'e', 'v', 'r', 'o', 'n', 'R', 'i', 'g'].drop_last() =~= seq!['C', 'h', 'e', 'v', 'r', 'o', 'n', 'R', 'i']);
    assert(kebab(seq!['C', 'h', 'e', 'v', 'r', 'o', 'n', 'R', 'i', 'g']) =~= seq!['c', 'h', 'e', 'v', 'r', 'o', 'n', '-', 'r', 'i', 'g']);
    assert(seq!['C', 'h', 'e', 'v', 'r', 'o', 'n', 'R', 'i', 'g', 'h'].drop_last() =~= seq!['C', 'h', 'e', 'v', 'r', 'o', 'n', 'R', 'i', 'g']);
    assert(kebab(seq!['C', 'h', 'e', 'v', 'r', 'o', 'n', 'R', 'i', 'g', 'h']) =~= seq!['c', 'h', 'e', 'v', 'r', 'o', 'n', '-', 'r', 'i', 'g', 'h']);
    assert(seq!['C', 'h', 'e', 'v', 'r', 'o', 'n', 'R', 'i', 'g', 'h', 't'].drop_last() =~= seq!['C', 'h', 'e', 'v', 'r', 'o', 'n', 'R', 'i', 'g', 'h']);
    assert(kebab(seq!['C', 'h', 'e', 'v', 'r', 'o', 'n', 'R', 'i', 'g', 'h', 't']) =~= seq!['c', 'h', 'e', 'v', 'r', 'o', 'n', '-', 'r', 'i', 'g', 'h', 't']);
}

proof fn lemma_kebab_settings()
    ensures
        kebab(variant_name(Icon::Settings)) == seq!['s', 'e', 't', 't', 'i', 'n', 'g', 's'],
{
    assert(kebab(Seq::<char>::empty()) =~= Seq::<char>::empty());
    assert(seq!['S'].drop_last() =~= Seq::<char>::empty());
    assert(kebab(seq!['S']) =~= seq!['s']);
    assert(seq!['S', 'e'].drop_last() =~= seq!['S']);
    assert(kebab(seq!['S', 'e']) =~= seq!['s', 'e']);
    assert(seq!['S', 'e', 't'].drop_last() =~= seq!['S', 'e']);
    assert(kebab(seq!['S', 'e', 't']) =~= seq!['s', 'e', 't']);
    assert(seq!['S', 'e', 't', 't'].drop_last() =~= seq!['S', 'e', 't']);
    assert(kebab(seq!['S', 'e', 't', 't']) =~= seq!['s', 'e', 't', 't']);
    assert(seq!['S', 'e', 't', 't', 'i'].drop_last() =~= seq!['S', 'e', 't', 't']);
    assert(kebab(seq!['S', 'e', 't', 't', 'i']) =~= seq!['s', 'e', 't', 't', 'i']);
    assert(seq!['S', 'e', 't', 't', 'i', 'n'].drop_last() =~= seq!['S', 'e', 't', 't', 'i']);
    assert(kebab(seq!['S', 'e', 't', 't', 'i', 'n']) =~= seq!['s', 'e', 't', 't', 'i', 'n']);
    assert(seq!['S', 'e', 't', 't', 'i', 'n', 'g'].drop_last() =~= seq!['S', 'e', 't', 't', 'i', 'n']);
    assert(kebab(seq!['S', 'e', 't', 't', 'i', 'n', 'g']) =~= seq!['s', 'e', 't', 't', 'i', 'n', 'g']);
    assert(seq!['S', 'e', 't', 't', 'i', 'n', 'g', 's'].drop_last() =~= seq!['S', 'e', 't', 't', 'i', 'n', 'g']);
    assert(kebab(seq!['S', 'e', 't', 't', 'i', 'n', 'g', 's']) =~= seq!['s', 'e', 't', 't', 'i', 'n', 'g', 's']);
}

proof fn lemma_kebab_bell()
    ensures
        kebab(variant_name(Icon::Bell)) == seq!['b', 'e', 'l', 'l'],
{
    assert(kebab(Seq::<char>::empty()) =~= Seq::<char>::empty());
    assert(seq!['B'].drop_last() =~= Seq::<char>::empty());
    assert(kebab(seq!['B']) =~= seq!['b']);
    assert(seq!['B', 'e'].drop_last() =~= seq!['B']);
    assert(kebab(seq!['B', 'e']) =~= seq!['b', 'e']);
    assert(seq!['B', 'e', 'l'].drop_last() =~= seq!['B', 'e']);
    assert(kebab(seq!['B', 'e', 'l']) =~= seq!['b', 'e', 'l']);
    assert(seq!['B', 'e', 'l', 'l'].drop_last() =~= seq!['B', 'e', 'l']);
    assert(kebab(seq!['B', 'e', 'l', 'l']) =~= seq!['b', 'e', 'l', 'l']);
}

proof fn lemma_kebab_play()
    ensures
        kebab(variant_name(Icon::Play)) == seq!['p', 'l', 'a', 'y'],
{
    assert(kebab(Seq::<char>::empty()) =~= Seq::<char>::empty());
    assert(seq!['P'].drop_last() =~= Seq::<char>::empty());
    assert(kebab(seq!['P']) =~= seq!['p']);
    assert(seq!['P', 'l'].drop_last() =~= seq!['P']);
    assert(kebab(seq!['P', 'l']) =~= seq!['p', 'l']);
    assert(seq!['P', 'l', 'a'].drop_last() =~= seq!['P', 'l']);
    assert(kebab(seq!['P', 'l', 'a']) =~= seq!['p', 'l', 'a']);
    assert(seq!['P', 'l', 'a', 'y'].drop_last() =~= seq!['P', 'l', 'a']);
    assert(kebab(seq!['P', 'l', 'a', 'y']) =~= seq!['p', 'l', 'a', 'y']);
}

proof fn lemma_kebab_pause()
    ensures
        kebab(variant_name(Icon::Pause)) == seq!['p', 'a', 'u', 's', 'e'],
{
    assert(kebab(Seq::<char>::empty()) =~= Seq::<char>::empty());
    assert(seq!['P'].drop_last() =~= Seq::<char>::empty());
    assert(kebab(seq!['P']) =~= seq!['p']);
    assert(seq!['P', 'a'].drop_last() =~= seq!['P']);
    assert(kebab(seq!['P', 'a']) =~= seq!['p', 'a']);
    assert(seq!['P', 'a', 'u'].drop_last() =~= seq!['P', 'a']);
    assert(kebab(seq!['P', 'a', 'u']) =~= seq!['p', 'a', 'u']);
    assert(seq!['P', 'a', 'u', 's'].drop_last() =~= seq!['P', 'a', 'u']);
    assert(kebab(seq!['P', 'a', 'u', 's']) =~= seq!['p', 'a', 'u', 's']);
    assert(seq!['P', 'a', 'u', 's', 'e'].drop_last() =~= seq!['P', 'a', 'u', 's']);
    assert(kebab(seq!['P', 'a', 'u', 's', 'e']) =~= seq!['p', 'a', 'u', 's', 'e']);
}

proof fn lemma_kebab_skip_back()
    ensures
        kebab(variant_name(Icon::SkipBack)) == seq!['s', 'k', 'i', 'p', '-', 'b', 'a', 'c', 'k'],
{
    assert(kebab(Seq::<char>::empty()) =~= Seq::<char>::empty());
    assert(seq!['S'].drop_last() =~= Seq::<char>::empty());
    assert(kebab(seq!['S']) =~= seq!['s']);
    assert(seq!['S', 'k'].drop_last() =~= seq!['S']);
    assert(kebab(seq!['S', 'k']) =~= seq!['s', 'k']);
    assert(seq!['S', 'k', 'i'].drop_last() =~= seq!['S', 'k']);
    assert(kebab(seq!['S', 'k', 'i']) =~= seq!['s', 'k', 'i']);
    assert(seq!['S', 'k', 'i', 'p'].drop_last() =~= seq!['S', 'k', 'i']);
    assert(kebab(seq!['S', 'k', 'i', 'p']) =~= seq!['s', 'k', 'i', 'p']);
    assert(seq!['S', 'k', 'i', 'p', 'B'].drop_last() =~= seq!['S', 'k', 'i', 'p']);
    assert(kebab(seq!['S', 'k', 'i', 'p', 'B']) =~= seq!['s', 'k', 'i', 'p', '-', 'b']);
    assert(seq!['S', 'k', 'i', 'p', 'B', 'a'].drop_last() =~= seq!['S', 'k', 'i', 'p', 'B']);
    assert(kebab(seq!['S', 'k', 'i', 'p', 'B', 'a']) =~= seq!['s', 'k', 'i', 'p', '-', 'b', 'a']);
    assert(seq!['S', 'k', 'i', 'p', 'B', 'a', 'c'].drop_last() =~= seq!['S', 'k', 'i', 'p', 'B', 'a']);
    assert(kebab(seq!['S', 'k', 'i', 'p', 'B', 'a', 'c']) =~= seq!['s', 'k', 'i', 'p', '-', 'b', 'a', 'c']);
    assert(seq!['S', 'k', 'i', 'p', 'B', 'a', 'c', 'k'].drop_last() =~= seq!['S', 'k', 'i', 'p', 'B', 'a', 'c']);
    assert(kebab(seq!['S', 'k', 'i', 'p', 'B', 'a', 'c', 'k']) =~= seq!['s', 'k', 'i', 'p', '-', 'b', 'a', 'c', 'k']);
}

proof fn lemma_kebab_skip_forward()
    ensures
        kebab(variant_name(Icon::SkipForward)) == seq!['s', 'k', 'i', 'p', '-', 'f', 'o', 'r', 'w', 'a', 'r', 'd'],
{
    assert(kebab(Seq::<char>::empty()) =~= Seq::<char>::empty());
    assert(seq!['S'].drop_last() =~= Seq::<char>::empty());
    assert(kebab(seq!['S']) =~= seq!['s']);
    assert(seq!['S', 'k'].drop_last() =~= seq!['S']);
    assert(kebab(seq!['S', 'k']) =~= seq!['s', 'k']);
    assert(seq!['S', 'k', 'i'].drop_last() =~= seq!['S', 'k']);
    assert(kebab(seq!['S', 'k', 'i']) =~= seq!['s', 'k', 'i']);
    assert(seq!['S', 'k', 'i', 'p'].drop_last() =~= seq!['S', 'k', 'i']);
    assert(kebab(seq!['S', 'k', 'i', 'p']) =~= seq!['s', 'k', 'i', 'p']);
    assert(seq!['S', 'k', 'i', 'p', 'F'].drop_last() =~= seq!['S', 'k', 'i', 'p']);
    assert(kebab(seq!['S', 'k', 'i', 'p', 'F']) =~= seq!['s', 'k', 'i', 'p', '-', 'f']);
    assert(seq!['S', 'k', 'i', 'p', 'F', 'o'].drop_last() =~= seq!['S', 'k', 'i', 'p', 'F']);
    assert(kebab(seq!['S', 'k', 'i', 'p', 'F', 'o']) =~= seq!['s', 'k', 'i', 'p', '-', 'f', 'o']);
    assert(seq!['S', 'k', 'i', 'p', 'F', 'o', 'r'].drop_last() =~= seq!['S', 'k', 'i', 'p', 'F', 'o']);
    assert(kebab(seq!['S', 'k', 'i', 'p', 'F', 'o', 'r']) =~= seq!['s', 'k', 'i', 'p', '-', 'f', 'o', 'r']);
    assert(seq!['S', 'k', 'i', 'p', 'F', 'o', 'r', 'w'].drop_last() =~= seq!['S', 'k', 'i', 'p', 'F', 'o', 'r']);
    assert(kebab(seq!['S', 'k', 'i', 'p', 'F', 'o', 'r', 'w']) =~= seq!['s', 'k', 'i', 'p', '-', 'f', 'o', 'r', 'w']);
    assert(seq!['S', 'k', 'i', 'p', 'F', 'o', 'r', 'w', 'a'].drop_last() =~= seq!['S', 'k', 'i', 'p', 'F', 'o', 'r', 'w']);
    assert(kebab(seq!['S', 'k', 'i', 'p', 'F', 'o', 'r', 'w', 'a']) =~= seq!['s', 'k', 'i', 'p', '-', 'f', 'o', 'r', 'w', 'a']);
    assert(seq!['S', 'k', 'i', 'p', 'F', 'o', 'r', 'w', 'a', 'r'].drop_last() =~= seq!['S', 'k', 'i', 'p', 'F', 'o', 'r', 'w', 'a']);
    assert(kebab(seq!['S', 'k', 'i', 'p', 'F', 'o', 'r', 'w', 'a', 'r']) =~= seq!['s', 'k', 'i', 'p', '-', 'f', 'o', 'r', 'w', 'a', 'r']);
    assert(seq!['S', 'k', 'i', 'p', 'F', 'o', 'r', 'w', 'a', 'r', 'd'].drop_last() =~= seq!['S', 'k', 'i', 'p', 'F', 'o', 'r', 'w', 'a', 'r']);
    assert(kebab(seq!['S', 'k', 'i', 'p', 'F', 'o', 'r', 'w', 'a', 'r', 'd']) =~= seq!['s', 'k', 'i', 'p', '-', 'f', 'o', 'r', 'w', 'a', 'r', 'd']);
}

proof fn lemma_kebab_shuffle()
    ensures
        kebab(variant_name(Icon::Shuffle)) == seq!['s', 'h', 'u', 'f', 'f', 'l', 'e'],
{
    assert(kebab(Seq::<char>::empty()) =~= Seq::<char>::empty());
    assert(seq!['S'].drop_last() =~= Seq::<char>::empty());
    assert(kebab(seq!['S']) =~= seq!['s']);
    assert(seq!['S', 'h'].drop_last() =~= seq!['S']);
    assert(kebab(seq!['S', 'h']) =~= seq!['s', 'h']);
    assert(seq!['S', 'h', 'u'].drop_last() =~= seq!['S', 'h']);
    assert(kebab(seq!['S', 'h', 'u']) =~= seq!['s', 'h', 'u']);
    assert(seq!['S', 'h', 'u', 'f'].drop_last() =~= seq!['S', 'h', 'u']);
    assert(kebab(seq!['S', 'h', 'u', 'f']) =~= seq!['s', 'h', 'u', 'f']);
    assert(seq!['S', 'h', 'u', 'f', 'f'].drop_last() =~= seq!['S', 'h', 'u', 'f']);
    assert(kebab(seq!['S', 'h', 'u', 'f', 'f']) =~= seq!['s', 'h', 'u', 'f', 'f']);
    assert(seq!['S', 'h', 'u', 'f', 'f', 'l'].drop_last() =~= seq!['S', 'h', 'u', 'f', 'f']);
    assert(kebab(seq!['S', 'h', 'u', 'f', 'f', 'l']) =~= seq!['s', 'h', 'u', 'f', 'f', 'l']);
    assert(seq!['S', 'h', 'u', 'f', 'f', 'l', 'e'].drop_last() =~= seq!['S', 'h', 'u', 'f', 'f', 'l']);
    assert(kebab(seq!['S', 'h', 'u', 'f', 'f', 'l', 'e']) =~= seq!['s', 'h', 'u', 'f', 'f', 'l', 'e']);
}

proof fn lemma_kebab_repeat()
    ensures
        kebab(variant_name(Icon::Repeat)) == seq!['r', 'e', 'p', 'e', 'a', 't'],
{
    assert(kebab(Seq::<char>::empty()) =~= Seq::<char>::empty());
    assert(seq!['R'].drop_last() =~= Seq::<char>::empty());
    assert(kebab(seq!['R']) =~= seq!['r']);
    assert(seq!['R', 'e'].drop_last() =~= seq!['R']);
    assert(kebab(seq!['R', 'e']) =~= seq!['r', 'e']);
    assert(seq!['R', 'e', 'p'].drop_last() =~= seq!['R', 'e']);
    assert(kebab(seq!['R', 'e', 'p']) =~= seq!['r', 'e', 'p']);
    assert(seq!['R', 'e', 'p', 'e'].drop_last() =~= seq!['R', 'e', 'p']);
    assert(kebab(seq!['R', 'e', 'p', 'e']) =~= seq!['r', 'e', 'p', 'e']);
    assert(seq!['R', 'e', 'p', 'e', 'a'].drop_last() =~= seq!['R', 'e', 'p', 'e']);
    assert(kebab(seq!['R', 'e', 'p', 'e', 'a']) =~= seq!['r', 'e', 'p', 'e', 'a']);
    assert(seq!['R', 'e', 'p', 'e', 'a', 't'].drop_last() =~= seq!['R', 'e', 'p', 'e', 'a']);
    assert(kebab(seq!['R', 'e', 'p', 'e', 'a', 't']) =~= seq!['r', 'e', 'p', 'e', 'a', 't']);
}

proof fn lemma_kebab_volume()
    ensures
        kebab(variant_name(Icon::Volume)) == seq!['v', 'o', 'l', 'u', 'm', 'e'],
{
    assert(kebab(Seq::<char>::empty()) =~= Seq::<char>::empty());
    assert(seq!['V'].drop_last() =~= Seq::<char>::empty());
    assert(kebab(seq!['V']) =~= seq!['v']);
    assert(seq!['V', 'o'].drop_last() =~= seq!['V']);
    assert(kebab(seq!['V', 'o']) =~= seq!['v', 'o']);
    assert(seq!['V', 'o', 'l'].drop_last() =~= seq!['V', 'o']);
    assert(kebab(seq!['V', 'o', 'l']) =~= seq!['v', 'o', 'l']);
    assert(seq!['V', 'o', 'l', 'u'].drop_last() =~= seq!['V', 'o', 'l']);
    assert(kebab(seq!['V', 'o', 'l', 'u']) =~= seq!['v', 'o', 'l', 'u']);
    assert(seq!['V', 'o', 'l', 'u', 'm'].drop_last() =~= seq!['V', 'o', 'l', 'u']);
    assert(kebab(seq!['V', 'o', 'l', 'u', 'm']) =~= seq!['v', 'o', 'l', 'u', 'm']);
    assert(seq!['V', 'o', 'l', 'u', 'm', 'e'].drop_last() =~= seq!['V', 'o', 'l', 'u', 'm']);
    assert(kebab(seq!['V', 'o', 'l', 'u', 'm', 'e']) =~= seq!['v', 'o', 'l', 'u', 'm', 'e']);
}

proof fn lemma_kebab_minimize()
    ensures
        kebab(variant_name(Icon::Minimize)) == seq!['m', 'i', 'n', 'i', 'm', 'i', 'z', 'e'],
{
    assert(kebab(Seq::<char>::empty()) =~= Seq::<char>::empty());
    assert(seq!['M'].drop_last() =~= Seq::<char>::empty());
    assert(kebab(seq!['M']) =~= seq!['m']);
    assert(seq!['M', 'i'].drop_last() =~= seq!['M']);
    assert(kebab(seq!['M', 'i']) =~= seq!['m', 'i']);
    assert(seq!['M', 'i', 'n'].drop_last() =~= seq!['M', 'i']);
    assert(kebab(seq!['M', 'i', 'n']) =~= seq!['m', 'i', 'n']);
    assert(seq!['M', 'i', 'n', 'i'].drop_last() =~= seq!['M', 'i', 'n']);
    assert(kebab(seq!['M', 'i', 'n', 'i']) =~= seq!['m', 'i', 'n', 'i']);
    assert(seq!['M', 'i', 'n', 'i', 'm'].drop_last() =~= seq!['M', 'i', 'n', 'i']);
    assert(kebab(seq!['M', 'i', 'n', 'i', 'm']) =~= seq!['m', 'i', 'n', 'i', 'm']);
    assert(seq!['M', 'i', 'n', 'i', 'm', 'i'].drop_last() =~= seq!['M', 'i', 'n', 'i', 'm']);
    assert(kebab(seq!['M', 'i', 'n', 'i', 'm', 'i']) =~= seq!['m', 'i', 'n', 'i', 'm', 'i']);
    assert(seq!['M', 'i', 'n', 'i', 'm', 'i', 'z'].drop_last() =~= seq!['M', 'i', 'n', 'i', 'm', 'i']);
    assert(kebab(seq!['M', 'i', 'n', 'i', 'm', 'i', 'z']) =~= seq!['m', 'i', 'n', 'i', 'm', 'i', 'z']);
    assert(seq!['M', 'i', 'n', 'i', 'm', 'i', 'z', 'e'].drop_last() =~= seq!['M', 'i', 'n', 'i', 'm', 'i', 'z']);
    assert(kebab(seq!['M', 'i', 'n', 'i', 'm', 'i', 'z', 'e']) =~= seq!['m', 'i', 'n', 'i', 'm', 'i', 'z', 'e']);
}

proof fn lemma_kebab_maximize()
    ensures
        kebab(variant_name(Icon::Maximize)) == seq!['m', 'a', 'x', 'i', 'm', 'i', 'z', 'e'],
{
    assert(kebab(Seq::<char>::empty()) =~= Seq::<char>::empty());
    assert(seq!['M'].drop_last() =~= Seq::<char>::empty());
    assert(kebab(seq!['M']) =~= seq!['m']);
    assert(seq!['M', 'a'].drop_last() =~= seq!['M']);
    assert(kebab(seq!['M', 'a']) =~= seq!['m', 'a']);
    assert(seq!['M', 'a', 'x'].drop_last() =~= seq!['M', 'a']);
    assert(kebab(seq!['M', 'a', 'x']) =~= seq!['m', 'a', 'x']);
    assert(seq!['M', 'a', 'x', 'i'].drop_last() =~= seq!['M', 'a', 'x']);
    assert(kebab(seq!['M', 'a', 'x', 'i']) =~= seq!['m', 'a', 'x', 'i']);
    assert(seq!['M', 'a', 'x', 'i', 'm'].drop_last() =~= seq!['M', 'a', 'x', 'i']);
    assert(kebab(seq!['M', 'a', 'x', 'i', 'm']) =~= seq!['m', 'a', 'x', 'i', 'm']);
    assert(seq!['M', 'a', 'x', 'i', 'm', 'i'].drop_last() =~= seq!['M', 'a', 'x', 'i', 'm']);
    assert(kebab(seq!['M', 'a', 'x', 'i', 'm', 'i']) =~= seq!['m', 'a', 'x', 'i', 'm', 'i']);
    assert(seq!['M', 'a', 'x', 'i', 'm', 'i', 'z'].drop_last() =~= seq!['M', 'a', 'x', 'i', 'm', 'i']);
    assert(kebab(seq!['M', 'a', 'x', 'i', 'm', 'i', 'z']) =~= seq!['m', 'a', 'x', 'i', 'm', 'i', 'z']);
    assert(seq!['M', 'a', 'x', 'i', 'm', 'i', 'z', 'e'].drop_last() =~= seq!['M', 'a', 'x', 'i', 'm', 'i', 'z']);
    assert(kebab(seq!['M', 'a', 'x', 'i', 'm', 'i', 'z', 'e']) =~= seq!['m', 'a', 'x', 'i', 'm', 'i', 'z', 'e']);
}

proof fn lemma_kebab_close()
    ensures
        kebab(variant_name(Icon::Close)) == seq!['c', 'l', 'o', 's', 'e'],
{
    assert(kebab(Seq::<char>::empty()) =~= Seq::<char>::empty());
    assert(seq!['C'].drop_last() =~= Seq::<char>::empty());
    assert(kebab(seq!['C']) =~= seq!['c']);
    assert(seq!['C', 'l'].drop_last() =~= seq!['C']);
    assert(kebab(seq!['C', 'l']) =~= seq!['c', 'l']);
    assert(seq!['C', 'l', 'o'].drop_last() =~= seq!['C', 'l']);
    assert(kebab(seq!['C', 'l', 'o']) =~= seq!['c', 'l', 'o']);
    assert(seq!['C', 'l', 'o', 's'].drop_last() =~= seq!['C', 'l', 'o']);
    assert(kebab(seq!['C', 'l', 'o', 's']) =~= seq!['c', 'l', 'o', 's']);
    assert(seq!['C', 'l', 'o', 's', 'e'].drop_last() =~= seq!['C', 'l', 'o', 's']);
    assert(kebab(seq!['C', 'l', 'o', 's', 'e']) =~= seq!['c', 'l', 'o', 's', 'e']);
}

proof fn lemma_kebab_home()
    ensures
        kebab(variant_name(Icon::Home)) == seq!['h', 'o', 'm', 'e'],
{
    assert(kebab(Seq::<char>::empty()) =~= Seq::<char>::empty());
    assert(seq!['H'].drop_last() =~= Seq::<char>::empty());
    assert(kebab(seq!['H']) =~= seq!['h']);
    assert(seq!['H', 'o'].drop_last() =~= seq!['H']);
    assert(kebab(seq!['H', 'o']) =~= seq!['h', 'o']);
    assert(seq!['H', 'o', 'm'].drop_last() =~= seq!['H', 'o']);
    assert(kebab(seq!['H', 'o', 'm']) =~= seq!['h', 'o', 'm']);
    assert(seq!['H', 'o', 'm', 'e'].drop_last() =~= seq!['H', 'o', 'm']);
    assert(kebab(seq!['H', 'o', 'm', 'e']) =~= seq!['h', 'o', 'm', 'e']);
}

proof fn lemma_kebab_search()
    ensures
        kebab(variant_name(Icon::Search)) == seq!['s', 'e', 'a', 'r', 'c', 'h'],
{
    assert(kebab(Seq::<char>::empty()) =~= Seq::<char>::empty());
    assert(seq!['S'].drop_last() =~= Seq::<char>::empty());
    assert(kebab(seq!['S']) =~= seq!['s']);
    assert(seq!['S', 'e'].drop_last() =~= seq!['S']);
    assert(kebab(seq!['S', 'e']) =~= seq!['s', 'e']);
    assert(seq!['S', 'e', 'a'].drop_last() =~= seq!['S', 'e']);
    assert(kebab(seq!['S', 'e', 'a']) =~= seq!['s', 'e', 'a']);
    assert(seq!['S', 'e', 'a', 'r'].drop_last() =~= seq!['S', 'e', 'a']);
    assert(kebab(seq!['S', 'e', 'a', 'r']) =~= seq!['s', 'e', 'a', 'r']);
    assert(seq!['S', 'e', 'a', 'r', 'c'].drop_last() =~= seq!['S', 'e', 'a', 'r']);
    assert(kebab(seq!['S', 'e', 'a', 'r', 'c']) =~= seq!['s', 'e', 'a', 'r', 'c']);
    assert(seq!['S', 'e', 'a', 'r', 'c', 'h'].drop_last() =~= seq!['S', 'e', 'a', 'r', 'c']);
    assert(kebab(seq!['S', 'e', 'a', 'r', 'c', 'h']) =~= seq!['s', 'e', 'a', 'r', 'c', 'h']);
}

proof fn lemma_kebab_plus()
    ensures
        kebab(variant_name(Icon::Plus)) == seq!['p', 'l', 'u', 's'],
{
    assert(kebab(Seq::<char>::empty()) =~= Seq::<char>::empty());
    assert(seq!['P'].drop_last() =~= Seq::<char>::empty());
    assert(kebab(seq!['P']) =~= seq!['p']);
    assert(seq!['P', 'l'].drop_last() =~= seq!['P']);
    assert(kebab(seq!['P', 'l']) =~= seq!['p', 'l']);
    assert(seq!['P', 'l', 'u'].drop_last() =~= seq!['P', 'l']);
    assert(kebab(seq!['P', 'l', 'u']) =~= seq!['p', 'l', 'u']);
    assert(seq!['P', 'l', 'u', 's'].drop_last() =~= seq!['P', 'l', 'u']);
    assert(kebab(seq!['P', 'l', 'u', 's']) =~= seq!['p', 'l', 'u', 's']);
}

proof fn lemma_kebab_heart()
    ensures
        kebab(variant_name(Icon::Heart)) == seq!['h', 'e', 'a', 'r', 't'],
{
    assert(kebab(Seq::<char>::empty()) =~= Seq::<char>::empty());
    assert(seq!['H'].drop_last() =~= Seq::<char>::empty());
    assert(kebab(seq!['H']) =~= seq!['h']);
    assert(seq!['H', 'e'].drop_last() =~= seq!['H']);
    assert(kebab(seq!['H', 'e']) =~= seq!['h', 'e']);
    assert(seq!['H', 'e', 'a'].drop_last() =~= seq!['H', 'e']);
    assert(kebab(seq!['H', 'e', 'a']) =~= seq!['h', 'e', 'a']);
    assert(seq!['H', 'e', 'a', 'r'].drop_last() =~= seq!['H', 'e', 'a']);
    assert(kebab(seq!['H', 'e', 'a', 'r']) =~= seq!['h', 'e', 'a', 'r']);
    assert(seq!['H', 'e', 'a', 'r', 't'].drop_last() =~= seq!['H', 'e', 'a', 'r']);
    assert(kebab(seq!['H', 'e', 'a', 'r', 't']) =~= seq!['h', 'e', 'a', 'r', 't']);
}

/// Each icon is drawn from `icons/<its name in kebab case>.svg`, so
/// `Icon::Play` reads `icons/play.svg` and `Icon::SkipBack` `icons/skip-back.svg`.
pub proof fn law_icon_file_is_kebab_name(icon: Icon)
    ensures
        icon_file(icon) == seq!['i', 'c', 'o', 'n', 's', '/'] + kebab(variant_name(icon)) + seq!['.', 's', 'v', 'g'],
{
    match icon {
        Icon::Menu => {
            reveal_strlit("icons/menu.svg");
            lemma_kebab_menu();
            assert(icon_file(icon) =~= seq!['i', 'c', 'o', 'n', 's', '/', 'm', 'e', 'n', 'u', '.', 's', 'v', 'g']);
        },
        Icon::ChevronLeft => {
            reveal_strlit("icons/chevron-left.svg");
            lemma_kebab_chevron_left();
            assert(icon_file(icon) =~= seq!['i', 'c', 'o', 'n', 's', '/', 'c', 'h', 'e', 'v', 'r', 'o', 'n', '-', 'l', 'e', 'f', 't', '.', 's', 'v', 'g']);
        },
        Icon::ChevronRight => {
            reveal_strlit("icons/chevron-right.svg");
            lemma_kebab_chevron_right();
            assert(icon_file(icon) =~= seq!['i', 'c', 'o', 'n', 's', '/', 'c', 'h', 'e', 'v', 'r', 'o', 'n', '-', 'r', 'i', 'g', 'h', 't', '.', 's', 'v', 'g']);
        },
        Icon::Settings => {
            reveal_strlit("icons/settings.svg");
            lemma_kebab_settings();
            assert(icon_file(icon) =~= seq!['i', 'c', 'o', 'n', 's', '/', 's', 'e', 't', 't', 'i', 'n', 'g', 's', '.', 's', 'v', 'g']);
        },
        Icon::Bell => {
            reveal_strlit("icons/bell.svg");
            lemma_kebab_bell();
            assert(icon_file(icon) =~= seq!['i', 'c', 'o', 'n', 's', '/', 'b', 'e', 'l', 'l', '.', 's', 'v', 'g']);
        },
        Icon::Play => {
            reveal_strlit("icons/play.svg");
            lemma_kebab_play();
            assert(icon_file(icon) =~= seq!['i', 'c', 'o', 'n', 's', '/', 'p', 'l', 'a', 'y', '.', 's', 'v', 'g']);
        },
        Icon::Pause => {
            reveal_strlit("icons/pause.svg");
            lemma_kebab_pause();
            assert(icon_file(icon) =~= seq!['i', 'c', 'o', 'n', 's', '/', 'p', 'a', 'u', 's', 'e', '.', 's', 'v', 'g']);
        },
        Icon::SkipBack => {
            reveal_strlit("icons/skip-back.svg");
            lemma_kebab_skip_back();
            assert(icon_file(icon) =~= seq!['i', 'c', 'o', 'n', 's', '/', 's', 'k', 'i', 'p', '-', 'b', 'a', 'c', 'k', '.', 's', 'v', 'g']);
        },
        Icon::SkipForward => {
            reveal_strlit("icons/skip-forward.svg");
            lemma_kebab_skip_forward();
            assert(icon_file(icon) =~= seq!['i', 'c', 'o', 'n', 's', '/', 's', 'k', 'i', 'p', '-', 'f', 'o', 'r', 'w', 'a', 'r', 'd', '.', 's', 'v', 'g']);
        },
        Icon::Shuffle => {
            reveal_strlit("icons/shuffle.svg");
            lemma_kebab_shuffle();
            assert(icon_file(icon) =~= seq!['i', 'c', 'o', 'n', 's', '/', 's', 'h', 'u', 'f', 'f', 'l', 'e', '.', 's', 'v', 'g']);
        },
        Icon::Repeat => {
            reveal_strlit("icons/repeat.svg");
            lemma_kebab_repeat();
            assert(icon_file(icon) =~= seq!['i', 'c', 'o', 'n', 's', '/', 'r', 'e', 'p', 'e', 'a', 't', '.', 's', 'v', 'g']);
        },
        Icon::Volume => {
            reveal_strlit("icons/volume.svg");
            lemma_kebab_volume();
            assert(icon_file(icon) =~= seq!['i', 'c', 'o', 'n', 's', '/', 'v', 'o', 'l', 'u', 'm', 'e', '.', 's', 'v', 'g']);
        },
        Icon::Minimize => {
            reveal_strlit("icons/minimize.svg");
            lemma_kebab_minimize();
            assert(icon_file(icon) =~= seq!['i', 'c', 'o', 'n', 's', '/', 'm', 'i', 'n', 'i', 'm', 'i', 'z', 'e', '.', 's', 'v', 'g']);
        },
        Icon::Maximize => {
            reveal_strlit("icons/maximize.svg");
            lemma_kebab_maximize();
            assert(icon_file(icon) =~= seq!['i', 'c', 'o', 'n', 's', '/', 'm', 'a', 'x', 'i', 'm', 'i', 'z', 'e', '.', 's', 'v', 'g']);
        },
        Icon::Close => {
            reveal_strlit("icons/close.svg");
            lemma_kebab_close();
            assert(icon_file(icon) =~= seq!['i', 'c', 'o', 'n', 's', '/', 'c', 'l', 'o', 's', 'e', '.', 's', 'v', 'g']);
        },
        Icon::Home => {
            reveal_strlit("icons/home.svg");
            lemma_kebab_home();
            assert(icon_file(icon) =~= seq!['i', 'c', 'o', 'n', 's', '/', 'h', 'o', 'm', 'e', '.', 's', 'v', 'g']);
        },
        Icon::Search => {
            reveal_strlit("icons/search.svg");
            lemma_kebab_search();
            assert(icon_file(icon) =~= seq!['i', 'c', 'o', 'n', 's', '/', 's', 'e', 'a', 'r', 'c', 'h', '.', 's', 'v', 'g']);
        },
        Icon::Plus => {
            reveal_strlit("icons/plus.svg");
            lemma_kebab_plus();
            assert(icon_file(icon) =~= seq!['i', 'c', 'o', 'n', 's', '/', 'p', 'l', 'u', 's', '.', 's', 'v', 'g']);
        },
        Icon::Heart => {
            reveal_strlit("icons/heart.svg");
            lemma_kebab_heart();
            assert(icon_file(icon) =~= seq!['i', 'c', 'o', 'n', 's', '/', 'h', 'e', 'a', 'r', 't', '.', 's', 'v', 'g']);
        },
    }
}

impl Icon {
    /// The SVG file this icon is drawn from, below the asset folder.
    pub fn svg_file(self) -> (r: &'static str)
        ensures
            r@ == icon_file(self),
    {
        match self {
            Icon::Menu => "icons/menu.svg",
            Icon::ChevronLeft => "icons/chevron-left.svg",
            Icon::ChevronRight => "icons/chevron-right.svg",
            Icon::Settings => "icons/settings.svg",
            Icon::Bell => "icons/bell.svg",
            Icon::Play => "icons/play.svg",
            Icon::Pause => "icons/pause.svg",
            Icon::SkipBack => "icons/skip-back.svg",
            Icon::SkipForward => "icons/skip-forward.svg",
            Icon::Shuffle => "icons/shuffle.svg",
            Icon::Repeat => "icons/repeat.svg",
            Icon::Volume => "icons/volume.svg",
            Icon::Minimize => "icons/minimize.svg",
            Icon::Maximize => "icons/maximize.svg",
            Icon::Close => "icons/close.svg",
            Icon::Home => "icons/home.svg",
            Icon::Search => "icons/search.svg",
            Icon::Plus => "icons/plus.svg",
            Icon::Heart => "icons/heart.svg",
        }
    }

    /// Every icon, each once, in the order they are loaded.
    pub fn all() -> (r: Vec<Icon>)
        ensures
            r@ == seq![
                Icon::Menu, Icon::ChevronLeft, Icon::ChevronRight, Icon::Settings, Icon::Bell,
                Icon::Play, Icon::Pause, Icon::SkipBack, Icon::SkipForward, Icon::Shuffle,
                Icon::Repeat, Icon::Volume, Icon::Minimize, Icon::Maximize, Icon::Close,
                Icon::Home, Icon::Search, Icon::Plus, Icon::Heart,
            ],
    {
        let r = vec![
            Icon::Menu, Icon::ChevronLeft, Icon::ChevronRight, Icon::Settings, Icon::Bell,
            Icon::Play, Icon::Pause, Icon::SkipBack, Icon::SkipForward, Icon::Shuffle,
            Icon::Repeat, Icon::Volume, Icon::Minimize, Icon::Maximize, Icon::Close,
            Icon::Home, Icon::Search, Icon::Plus, Icon::Heart,
        ];
        proof {
            assert(r@ =~= seq![
                Icon::Menu, Icon::ChevronLeft, Icon::ChevronRight, Icon::Settings, Icon::Bell,
                Icon::Play, Icon::Pause, Icon::SkipBack, Icon::SkipForward, Icon::Shuffle,
                Icon::Repeat, Icon::Volume, Icon::Minimize, Icon::Maximize, Icon::Close,
                Icon::Home, Icon::Search, Icon::Plus, Icon::Heart,
            ]);
        }
        r
    }
}

/// Which image file a component shows, and how it is fitted.
#[derive(Debug, Clone)]
pub struct ImageConfig {
    pub file_name: String,
    pub scale_mode: ScaleMode,
}

/// Pixel size and fitting of an image, as handed to the image shader.
#[derive(Debug, Clone, Copy)]
pub struct ImageMetadata {
    pub original_width: u32,
    pub original_height: u32,
    pub scale_mode: ScaleMode,
}

#[verifier::external_type_specification]
#[verifier::external_body]
pub struct ExImageError(image::ImageError);

/// Decodes `bytes` with `image::load_from_memory` and converts the picture
/// to RGBA8 (`DynamicImage::to_rgba8`), giving the pixels, width and
/// height. Trusted: on success the pixel buffer holds at least four bytes
/// per pixel, as every RGBA8 `ImageBuffer` does (`ImageBuffer::from_raw`
/// refuses shorter buffers). Which picture comes out is not claimed: the
/// format guess and the decoder consult process-wide hook tables
/// (`image::hooks`) that any code may fill, so equal bytes need not decode
/// alike, and a buffer made by a hook's decoder may be longer than needed.
#[verifier::external_body]
fn load_rgba8(bytes: &[u8]) -> (r: Result<(Vec<u8>, u32, u32), image::ImageError>)
    ensures
        r matches Ok(v) ==> v.0@.len() >= v.1 * v.2 * 4,
{
    let img = image::load_from_memory(bytes)?;
    let (width, height) = img.dimensions();
    Ok((img.to_rgba8().into_raw(), width, height))
}

/// A decoded image: RGBA8 pixels, row by row, and its size.
pub struct RgbaImg {
    pub bytes: Vec<u8>,
    pub width: u32,
    pub height: u32,
}

impl RgbaImg {
    /// The image from what decoding produced; a failed decode is an image load error.
    pub fn from_decoded(decoded: Option<(Vec<u8>, u32, u32)>) -> (r: Result<RgbaImg, AssetError>)
        ensures
            match decoded {
                Some(d) => r matches Ok(img) && img.bytes@ == d.0@ && img.width == d.1 && img.height == d.2,
                None => r matches Err(e) && e == AssetError::ImageLoadError,
            },
    {
        match decoded {
            Some((bytes, width, height)) => Ok(RgbaImg { bytes, width, height }),
            None => Err(AssetError::ImageLoadError),
        }
    }

    /// Decode the image asset stored under `file_name`: not found when the
    /// store has no such asset, else the decoded image or an image load error.
    /// Which of the two depends on the image decoder (see `load_rgba8`).
    pub fn new(store: &AssetStore, file_name: &str) -> (r: Result<RgbaImg, AssetError>)
        ensures
            !store@.contains_key(file_name@) ==> r == Err::<RgbaImg, AssetError>(AssetError::NotFound),
            store@.contains_key(file_name@) ==> (r is Ok || r == Err::<RgbaImg, AssetError>(
                AssetError::ImageLoadError,
            )),
            r matches Ok(img) ==> img.bytes@.len() >= img.width * img.height * 4,
    {
        match get_asset(store, file_name) {
            Some(bytes) => {
                let decoded = match load_rgba8(bytes) {
                    Ok(d) => Some(d),
                    Err(_) => None,
                };
                RgbaImg::from_decoded(decoded)
            },
            None => Err(AssetError::NotFound),
        }
    }
}

} // verus!
