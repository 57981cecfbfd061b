//! Die Seite in der Seitenleiste: Kacheln, Knöpfe, die zweite Zeile eines
//! Eintrags und wie lange er her ist.

use vstd::prelude::*;

use crate::eintrag::{sicht, sicht_str, Eintrag, Jetzt};
use crate::text::{
    dezimal, dezimal_anhaengen, grossgeschrieben, in_grossbuchstaben, sichten, verbinden,
    verbunden,
};
use crate::uhr::{beschriftung, beschriftung_text, im_i64, tage, Zeitpunkt};

verus! {

/// Ein Knopf auf der Seite.
#[derive(Debug, Clone, PartialEq, Eq)]
pub struct Knopf {
    pub id: String,
    pub label: String,
    pub icon: Option<String>,
    /// Ob der Knopf als gefährlich markiert ist.
    pub danger: bool,
}

/// Eine Kachel der Seite: ein Eintrag, wie er dasteht.
#[derive(Debug, Clone, PartialEq, Eq)]
pub struct Kachel {
    pub id: String,
    pub title: String,
    pub text: String,
    pub meta: String,
    pub actions: Vec<Knopf>,
}

/// Die Seite in der Seitenleiste.
#[derive(Debug, Clone, PartialEq, Eq)]
pub struct Seite {
    pub items: Vec<Kachel>,
    /// Der Satz über der Liste.
    pub note: Option<String>,
    /// Die Knöpfe unter der Liste; leer, wenn keiner etwas zu tun hätte.
    pub actions: Vec<Knopf>,
}

/// Der Satz über der Liste.
pub open spec fn bemerkung() -> Seq<char> {
    "Diese Sätze liegen im Arbeitsspeicher. Wird das Add-on ausgeschaltet, sind sie weg."@
}

/// Ob mehr als eine Sprache im Verlauf steht: zwei Einträge mit
/// verschiedenem Sprachkürzel.
pub open spec fn mehrsprachig_in(s: Seq<Eintrag>) -> bool {
    exists|i: int, j: int|
        0 <= i < s.len() && 0 <= j < s.len() && (#[trigger] s[i]).sprache is Some && (
        #[trigger] s[j]).sprache is Some && s[i].sprache->0@ != s[j].sprache->0@
}

/// Die Teile der zweiten Zeile eines Eintrags.
pub open spec fn meta_teile(e: Eintrag, mit_sprache: bool) -> Seq<Seq<char>> {
    let woerter = seq![
        dezimal(e.woerter as nat) + " "@ + if e.woerter == 1 {
            "Wort"@
        } else {
            "Wörter"@
        },
    ];
    let male = if e.male > 1 {
        woerter.push(dezimal(e.male as nat) + "×"@)
    } else {
        woerter
    };
    let sprache = if mit_sprache && e.sprache is Some {
        male.push(grossgeschrieben(e.sprache->0@))
    } else {
        male
    };
    if e.angeheftet {
        sprache.push("angeheftet"@)
    } else {
        sprache
    }
}

/// Die zweite Zeile eines Eintrags: Wörter, wie oft, Sprache, angeheftet,
/// durch „ · " getrennt.
pub open spec fn meta_text(e: Eintrag, mit_sprache: bool) -> Seq<char> {
    verbunden(meta_teile(e, mit_sprache), " · "@)
}

/// Wie lange ein Eintrag her ist: in der ersten Stunde grob und in Worten,
/// danach die Uhrzeit.
pub open spec fn wann_text(sekunden: nat, uhrzeit: Zeitpunkt, jetzt: Zeitpunkt) -> Seq<char> {
    if sekunden < 60 {
        "gerade eben"@
    } else if sekunden < 120 {
        "vor einer Minute"@
    } else if sekunden < 3600 {
        "vor "@ + dezimal(sekunden / 60) + " Minuten"@
    } else {
        beschriftung_text(uhrzeit, jetzt)
    }
}

/// Volle Sekunden seit dem Empfang, aus Nanosekunden; nie weniger als null.
pub open spec fn abstand(jetzt: u64, dann: u64) -> nat {
    if jetzt >= dann {
        ((jetzt - dann) / 1_000_000_000) as nat
    } else {
        0
    }
}

/// Ein Knopf mit diesen Angaben.
pub open spec fn knopf_ist(
    k: Knopf,
    id: Seq<char>,
    label: Seq<char>,
    icon: Option<Seq<char>>,
    danger: bool,
) -> bool {
    &&& k.id@ == id
    &&& k.label@ == label
    &&& sicht(k.icon) == icon
    &&& k.danger == danger
}

/// Die drei Knöpfe einer Kachel: kopieren, anheften oder lösen, vergessen.
pub open spec fn kachelknoepfe(ks: Seq<Knopf>, angeheftet: bool) -> bool {
    &&& ks.len() == 3
    &&& knopf_ist(ks[0], "copy"@, "In die Zwischenablage"@, Some("copy"@), false)
    &&& knopf_ist(
        ks[1],
        "pin"@,
        if angeheftet {
            "Nicht mehr anheften"@
        } else {
            "Anheften"@
        },
        Some("check"@),
        false,
    )
    &&& knopf_ist(ks[2], "delete"@, "Diesen Satz vergessen"@, Some("delete"@), false)
}

/// Die Kachel eines Eintrags.
pub open spec fn kachel_zu(k: Kachel, e: Eintrag, mit_sprache: bool, jetzt: Jetzt) -> bool {
    &&& k.id@ == dezimal(e.nummer as nat)
    &&& k.title@ == wann_text(abstand(jetzt.nanos, e.empfangen), e.uhrzeit, jetzt.zeit)
    &&& k.text@ == e.text@
    &&& k.meta@ == meta_text(e, mit_sprache)
    &&& kachelknoepfe(k.actions@, e.angeheftet)
}

/// Die Beschriftung eines Knopfes unter der Liste.
pub open spec fn seitenknopf_label(id: Seq<char>) -> Seq<char> {
    if id == "copy-all"@ {
        "Alles kopieren"@
    } else if id == "undo"@ {
        "Zurücknehmen"@
    } else {
        "Alles vergessen"@
    }
}

/// Die zweite Zeile eines Eintrags.
pub fn meta(e: &Eintrag, mit_sprache: bool) -> (r: String)
    ensures
        r@ == meta_text(*e, mit_sprache),
{
    let mut erster = String::new();
    dezimal_anhaengen(&mut erster, e.woerter);
    erster.append(" ");
    erster.append(if e.woerter == 1 { "Wort" } else { "Wörter" });
    let mut teile: Vec<String> = Vec::new();
    teile.push(erster);
    let ghost woerter_teil = teile@;
    if e.male > 1 {
        let mut t = String::new();
        dezimal_anhaengen(&mut t, e.male as u64);
        t.append("×");
        teile.push(t);
    }
    if mit_sprache {
        if let Some(sprache) = &e.sprache {
            teile.push(in_grossbuchstaben(sprache.as_str()));
        }
    }
    // Ohne das sähe ein angehefteter Satz aus wie jeder andere — das Format
    // kennt keinen hervorgehobenen Eintrag, nur Text.
    if e.angeheftet {
        teile.push(String::from_str("angeheftet"));
    }
    assert(sichten(teile@) =~= meta_teile(*e, mit_sprache));
    verbinden(&teile, " · ")
}

/// Wie lange ein Eintrag her ist.
///
/// In der ersten Stunde grob und in Worten: Wer seinen letzten Satz sucht,
/// will wissen, ob es der von eben war — nicht, ob 94 oder 96 Sekunden
/// vergangen sind. Danach kippt es auf die Uhrzeit, weil „vor 7 Stunden"
/// niemandem mehr sagt, wann das war.
pub fn wann(sekunden: u64, uhrzeit: Zeitpunkt, jetzt: Zeitpunkt) -> (r: String)
    requires
        sekunden >= 3600 ==> uhrzeit.rechenbar() && jetzt.rechenbar() && im_i64(
            tage(jetzt) - tage(uhrzeit),
        ),
    ensures
        r@ == wann_text(sekunden as nat, uhrzeit, jetzt),
{
    if sekunden < 60 {
        String::from_str("gerade eben")
    } else if sekunden < 120 {
        String::from_str("vor einer Minute")
    } else if sekunden < 3600 {
        let mut s = String::from_str("vor ");
        dezimal_anhaengen(&mut s, sekunden / 60);
        s.append(" Minuten");
        s
    } else {
        beschriftung(uhrzeit, jetzt)
    }
}

pub(crate) fn knopf(id: &str, label: &str, icon: Option<&str>, danger: bool) -> (r: Knopf)
    ensures
        knopf_ist(r, id@, label@, sicht_str(icon), danger),
{
    Knopf {
        id: String::from_str(id),
        label: String::from_str(label),
        icon: match icon {
            Some(i) => Some(String::from_str(i)),
            None => None,
        },
        danger,
    }
}

/// Angeheftet zu sein hängt an die zweite Zeile nur „ · angeheftet" an;
/// alles davor bleibt, wie es ohne wäre.
pub proof fn angeheftet_steht_am_ende(e: Eintrag, mit_sprache: bool)
    ensures
        meta_text(Eintrag { angeheftet: true, ..e }, mit_sprache) == meta_text(
            Eintrag { angeheftet: false, ..e },
            mit_sprache,
        ) + " · "@ + "angeheftet"@,
{
    let frei = Eintrag { angeheftet: false, ..e };
    let fest = Eintrag { angeheftet: true, ..e };
    let t = meta_teile(frei, mit_sprache);
    assert(meta_teile(fest, mit_sprache) =~= t.push("angeheftet"@));
    assert(t.len() >= 1);
    assert(t.push("angeheftet"@).drop_last() =~= t);
}

/// Ohne Mehrsprachigkeit steht kein Sprachkürzel in der zweiten Zeile: Sie
/// ist dieselbe wie für einen Eintrag ohne Sprache.
pub proof fn sprache_nur_wenn_mehrsprachig(e: Eintrag)
    ensures
        meta_text(e, false) == meta_text(Eintrag { sprache: None, ..e }, true),
        meta_text(e, false) == meta_text(Eintrag { sprache: None, ..e }, false),
{
    assert(meta_teile(e, false) =~= meta_teile(Eintrag { sprache: None, ..e }, true));
    assert(meta_teile(e, false) =~= meta_teile(Eintrag { sprache: None, ..e }, false));
}

/// Die zweite Zeile beginnt immer mit der Zahl der Wörter: „1 Wort", sonst
/// „n Wörter".
pub proof fn meta_beginnt_mit_den_woertern(e: Eintrag, mit_sprache: bool)
    ensures
        ({
            let kopf = dezimal(e.woerter as nat) + " "@ + if e.woerter == 1 {
                "Wort"@
            } else {
                "Wörter"@
            };
            meta_text(e, mit_sprache).subrange(0, kopf.len() as int) == kopf
        }),
{
    let kopf = dezimal(e.woerter as nat) + " "@ + if e.woerter == 1 {
        "Wort"@
    } else {
        "Wörter"@
    };
    lemma_verbunden_beginnt(meta_teile(e, mit_sprache), " · "@);
    assert(meta_teile(e, mit_sprache)[0] == kopf);
}

/// Eine verbundene Folge beginnt mit ihrem ersten Teil.
proof fn lemma_verbunden_beginnt(teile: Seq<Seq<char>>, trenner: Seq<char>)
    requires
        teile.len() > 0,
    ensures
        verbunden(teile, trenner).len() >= teile[0].len(),
        verbunden(teile, trenner).subrange(0, teile[0].len() as int) == teile[0],
    decreases teile.len(),
{
    if teile.len() > 1 {
        lemma_verbunden_beginnt(teile.drop_last(), trenner);
        let v = verbunden(teile.drop_last(), trenner);
        let w = v + trenner + teile.last();
        assert(w.subrange(0, teile[0].len() as int) =~= v.subrange(0, teile[0].len() as int));
    } else {
        assert(teile[0].subrange(0, teile[0].len() as int) =~= teile[0]);
    }
}

/// Mehrsprachig heisst: zwei Einträge tragen verschiedene Kürzel, gleich an
/// welcher Stelle. Wer zwei Einträge vertauscht, ändert daran nichts.
pub proof fn mehrsprachig_ohne_reihenfolge(s: Seq<Eintrag>, i: int, j: int)
    requires
        0 <= i < s.len(),
        0 <= j < s.len(),
    ensures
        mehrsprachig_in(s.update(i, s[j]).update(j, s[i])) == mehrsprachig_in(s),
{
    let t = s.update(i, s[j]).update(j, s[i]);
    assert forall|k: int| 0 <= k < s.len() implies #[trigger] t[k] == s[if k == i {
        j
    } else if k == j {
        i
    } else {
        k
    }] by {}
    assert forall|k: int| 0 <= k < s.len() implies #[trigger] s[k] == t[if k == i {
        j
    } else if k == j {
        i
    } else {
        k
    }] by {}
    if mehrsprachig_in(s) {
        let (a, b) = choose|a: int, b: int|
            0 <= a < s.len() && 0 <= b < s.len() && (#[trigger] s[a]).sprache is Some && (
            #[trigger] s[b]).sprache is Some && s[a].sprache->0@ != s[b].sprache->0@;
        let a2 = if a == i {
            j
        } else if a == j {
            i
        } else {
            a
        };
        let b2 = if b == i {
            j
        } else if b == j {
            i
        } else {
            b
        };
        assert(t[a2] == s[a] && t[b2] == s[b]);
    }
    if mehrsprachig_in(t) {
        let (a, b) = choose|a: int, b: int|
            0 <= a < t.len() && 0 <= b < t.len() && (#[trigger] t[a]).sprache is Some && (
            #[trigger] t[b]).sprache is Some && t[a].sprache->0@ != t[b].sprache->0@;
        let a2 = if a == i {
            j
        } else if a == j {
            i
        } else {
            a
        };
        let b2 = if b == i {
            j
        } else if b == j {
            i
        } else {
            b
        };
        assert(s[a2] == t[a] && s[b2] == t[b]);
    }
}

/// Steht überall, wo ein Kürzel steht, dasselbe, ist der Verlauf nicht
/// mehrsprachig.
pub proof fn eine_sprache_ist_nicht_mehrsprachig(s: Seq<Eintrag>, sprache: Seq<char>)
    requires
        forall|k: int|
            0 <= k < s.len() && (#[trigger] s[k]).sprache is Some ==> s[k].sprache->0@ == sprache,
    ensures
        !mehrsprachig_in(s),
{
}

} // verus!
