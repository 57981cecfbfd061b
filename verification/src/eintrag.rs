//! Die Einträge des Verlaufs und was sich über eine Folge von ihnen sagen
//! lässt: kürzen, vergessen, wieder einsetzen, Nummern zählen.

use vstd::prelude::*;

use crate::uhr::Zeitpunkt;

verus! {

/// Was die Uhren gerade sagen, wenn ein Ereignis behandelt wird.
#[derive(Debug, Clone, Copy, PartialEq, Eq, Structural)]
pub struct Jetzt {
    /// Nanosekunden auf einer monotonen Uhr, die kein Zeitabgleich verstellt.
    pub nanos: u64,
    /// Die Ortszeit.
    pub zeit: Zeitpunkt,
}

/// Ein aufgehobenes Diktat.
pub struct Eintrag {
    /// Fortlaufend, damit eine Aktion sagen kann, welchen sie meint.
    ///
    /// Nicht die Stelle in der Liste: Die verschiebt sich beim nächsten
    /// Diktat, und dann löschte ein Klick den falschen Satz.
    pub nummer: u64,
    pub text: String,
    pub woerter: u64,
    pub sprache: Option<String>,
    /// Für den Abstand: die Nanosekunden der monotonen Uhr beim Empfang.
    pub empfangen: u64,
    /// Für die Anzeige, sobald der Abstand nichts mehr sagt.
    pub uhrzeit: Zeitpunkt,
    /// Wie oft derselbe Satz hintereinander kam.
    pub male: u32,
    pub angeheftet: bool,
}

/// Die Sicht auf einen optionalen Text.
pub open spec fn sicht(o: Option<String>) -> Option<Seq<char>> {
    match o {
        Some(s) => Some(s@),
        None => None,
    }
}

/// Die Sicht auf einen optionalen Textausschnitt.
pub open spec fn sicht_str(o: Option<&str>) -> Option<Seq<char>> {
    match o {
        Some(s) => Some(s@),
        None => None,
    }
}

/// Wie viele Einträge nicht angeheftet sind.
pub open spec fn frei(s: Seq<Eintrag>) -> nat
    decreases s.len(),
{
    if s.len() == 0 {
        0
    } else {
        frei(s.drop_last()) + if s.last().angeheftet {
            0nat
        } else {
            1nat
        }
    }
}

/// Die Liste nach dem Kürzen auf `hoechstens` freie Einträge: Ein
/// angehefteter Eintrag bleibt immer, ein freier nur, solange er unter den
/// ersten `hoechstens` freien ist. Die Reihenfolge bleibt.
pub open spec fn gekuerzt(s: Seq<Eintrag>, hoechstens: nat) -> Seq<Eintrag>
    decreases s.len(),
{
    if s.len() == 0 {
        s
    } else {
        let vorne = gekuerzt(s.drop_last(), hoechstens);
        if s.last().angeheftet || frei(s) <= hoechstens {
            vorne.push(s.last())
        } else {
            vorne
        }
    }
}

/// Ein Eintrag, wie der Verlauf ihn hält: Seine Nummer ist vergeben, und
/// seine Uhrzeit ist handlich.
pub open spec fn gut(e: Eintrag, naechste: nat) -> bool {
    e.nummer < naechste && e.uhrzeit.handlich()
}

/// Jeder Eintrag der Liste ist `gut`.
pub open spec fn alle_gut(s: Seq<Eintrag>, naechste: nat) -> bool {
    forall|i: int| 0 <= i < s.len() ==> gut(#[trigger] s[i], naechste)
}

/// Jeder zurückgelegte Eintrag ist `gut`.
pub open spec fn ablage_gut(z: Seq<(usize, Eintrag)>, naechste: nat) -> bool {
    forall|i: int| 0 <= i < z.len() ==> gut(#[trigger] z[i].1, naechste)
}

/// Wie oft die Nummer `n` in der Liste vorkommt.
pub open spec fn vorkommen(s: Seq<Eintrag>, n: nat) -> nat
    decreases s.len(),
{
    if s.len() == 0 {
        0
    } else {
        vorkommen(s.drop_last(), n) + if s.last().nummer == n {
            1nat
        } else {
            0nat
        }
    }
}

/// Wie oft die Nummer `n` unter dem Zurückgelegten vorkommt.
pub open spec fn vorkommen_abgelegt(z: Seq<(usize, Eintrag)>, n: nat) -> nat
    decreases z.len(),
{
    if z.len() == 0 {
        0
    } else {
        vorkommen_abgelegt(z.drop_last(), n) + if z.last().1.nummer == n {
            1nat
        } else {
            0nat
        }
    }
}

/// Keine Nummer steht zweimal, weder in der Liste noch im Zurückgelegten
/// noch in beiden zusammen.
pub open spec fn nummern_eindeutig(s: Seq<Eintrag>, z: Seq<(usize, Eintrag)>) -> bool {
    forall|n: nat| #[trigger] vorkommen(s, n) + vorkommen_abgelegt(z, n) <= 1
}

/// Die Stellen des Zurückgelegten steigen streng.
pub open spec fn stellen_aufsteigend(z: Seq<(usize, Eintrag)>) -> bool {
    forall|i: int, j: int| 0 <= i < j < z.len() ==> (#[trigger] z[i]).0 < (#[trigger] z[j]).0
}

/// Die angehefteten Einträge, in ihrer Reihenfolge.
pub open spec fn angeheftete(s: Seq<Eintrag>) -> Seq<Eintrag>
    decreases s.len(),
{
    if s.len() == 0 {
        s
    } else if s.last().angeheftet {
        angeheftete(s.drop_last()).push(s.last())
    } else {
        angeheftete(s.drop_last())
    }
}

/// Was „Alles vergessen" wegnimmt: jeden nicht angehefteten Eintrag mit
/// seiner Stelle, aufsteigend.
pub open spec fn vergessene(s: Seq<Eintrag>) -> Seq<(usize, Eintrag)>
    decreases s.len(),
{
    if s.len() == 0 {
        seq![]
    } else if s.last().angeheftet {
        vergessene(s.drop_last())
    } else {
        vergessene(s.drop_last()).push(((s.len() - 1) as usize, s.last()))
    }
}

/// Die Liste nach „Zurücknehmen": jeder zurückgelegte Eintrag der Reihe
/// nach an seiner Stelle eingesetzt, oder am Ende, wenn die Liste dafür zu
/// kurz geworden ist.
pub open spec fn wieder_eingesetzt(s: Seq<Eintrag>, z: Seq<(usize, Eintrag)>) -> Seq<Eintrag>
    decreases z.len(),
{
    if z.len() == 0 {
        s
    } else {
        let vorher = wieder_eingesetzt(s, z.drop_last());
        let stelle = if (z.last().0 as int) < vorher.len() {
            z.last().0 as int
        } else {
            vorher.len() as int
        };
        vorher.insert(stelle, z.last().1)
    }
}

/// `i` ist die erste Stelle, an der ein Eintrag mit Nummer `n` steht.
pub open spec fn erste_stelle(s: Seq<Eintrag>, n: nat, i: int) -> bool {
    &&& 0 <= i < s.len()
    &&& s[i].nummer == n
    &&& forall|k: int| 0 <= k < i ==> #[trigger] s[k].nummer != n
}

/// Kein Eintrag hat die Nummer `n`.
pub open spec fn fehlt(s: Seq<Eintrag>, n: nat) -> bool {
    forall|k: int| 0 <= k < s.len() ==> #[trigger] s[k].nummer != n
}

/// Die erste Stelle mit Nummer `n`, wo es eine gibt.
pub open spec fn stelle_von(s: Seq<Eintrag>, n: nat) -> int {
    choose|i: int| erste_stelle(s, n, i)
}

/// Die Texte der Einträge.
pub open spec fn texte(s: Seq<Eintrag>) -> Seq<Seq<char>> {
    s.map_values(|e: Eintrag| e.text@)
}

pub(crate) proof fn lemma_gekuerzt_gut(s: Seq<Eintrag>, hoechstens: nat, naechste: nat)
    requires
        alle_gut(s, naechste),
    ensures
        alle_gut(gekuerzt(s, hoechstens), naechste),
    decreases s.len(),
{
    if s.len() > 0 {
        lemma_gekuerzt_gut(s.drop_last(), hoechstens, naechste);
        assert(gut(s[s.len() - 1], naechste));
    }
}

pub(crate) proof fn lemma_angeheftete_gut(s: Seq<Eintrag>, naechste: nat)
    requires
        alle_gut(s, naechste),
    ensures
        alle_gut(angeheftete(s), naechste),
        ablage_gut(vergessene(s), naechste),
    decreases s.len(),
{
    if s.len() > 0 {
        lemma_angeheftete_gut(s.drop_last(), naechste);
        assert(gut(s[s.len() - 1], naechste));
    }
}

pub(crate) proof fn lemma_wieder_eingesetzt_gut(s: Seq<Eintrag>, z: Seq<(usize, Eintrag)>, naechste: nat)
    requires
        alle_gut(s, naechste),
        ablage_gut(z, naechste),
    ensures
        alle_gut(wieder_eingesetzt(s, z), naechste),
    decreases z.len(),
{
    if z.len() > 0 {
        lemma_wieder_eingesetzt_gut(s, z.drop_last(), naechste);
        assert(gut(z[z.len() - 1].1, naechste));
    }
}

/// Die erste Stelle ist eindeutig.
pub(crate) proof fn lemma_erste_stelle(s: Seq<Eintrag>, n: nat, i: int)
    requires
        erste_stelle(s, n, i),
    ensures
        stelle_von(s, n) == i,
        !fehlt(s, n),
{
    let j = stelle_von(s, n);
    assert(erste_stelle(s, n, j));
    if j < i {
        assert(s[j].nummer != n);
    } else if i < j {
        assert(s[i].nummer != n);
    }
}

pub(crate) proof fn lemma_angeheftete_verkettet(a: Seq<Eintrag>, b: Seq<Eintrag>)
    ensures
        angeheftete(a + b) == angeheftete(a) + angeheftete(b),
    decreases b.len(),
{
    if b.len() == 0 {
        assert(a + b =~= a);
        assert(angeheftete(a) + angeheftete(b) =~= angeheftete(a));
    } else {
        lemma_angeheftete_verkettet(a, b.drop_last());
        assert((a + b).drop_last() =~= a + b.drop_last());
        assert((a + b).last() == b.last());
        if b.last().angeheftet {
            assert(angeheftete(a) + angeheftete(b) =~= (angeheftete(a) + angeheftete(
                b.drop_last(),
            )).push(b.last()));
        }
    }
}

pub(crate) proof fn lemma_vergessene_zahl(s: Seq<Eintrag>)
    ensures
        vergessene(s).len() == frei(s),
        frei(s) > 0 <==> exists|i: int| 0 <= i < s.len() && !(#[trigger] s[i]).angeheftet,
    decreases s.len(),
{
    if s.len() > 0 {
        lemma_vergessene_zahl(s.drop_last());
        if frei(s.drop_last()) > 0 {
            let i = choose|i: int| 0 <= i < s.drop_last().len() && !(#[trigger] s.drop_last()[i]).angeheftet;
            assert(!s[i].angeheftet);
        }
        if exists|i: int| 0 <= i < s.len() && !(#[trigger] s[i]).angeheftet {
            let i = choose|i: int| 0 <= i < s.len() && !(#[trigger] s[i]).angeheftet;
            if i < s.len() - 1 {
                assert(!s.drop_last()[i].angeheftet);
            }
        }
    }
}

/// Nach dem Einsetzen der ersten `k` vergessenen Einträge steht vorn die
/// alte Liste bis `k`, dahinter das Angeheftete vom Rest.
pub(crate) proof fn lemma_wieder_eingesetzt_bis(s: Seq<Eintrag>, k: int)
    requires
        0 <= k <= s.len(),
        s.len() <= usize::MAX,
    ensures
        wieder_eingesetzt(angeheftete(s), vergessene(s.take(k))) == s.take(k) + angeheftete(
            s.skip(k),
        ),
    decreases k,
{
    if k == 0 {
        assert(s.take(0) + angeheftete(s.skip(0)) =~= angeheftete(s)) by {
            assert(s.skip(0) =~= s);
        }
        assert(vergessene(s.take(0)) =~= seq![]);
    } else {
        let j = k - 1;
        lemma_wieder_eingesetzt_bis(s, j);
        assert(s.take(k).drop_last() =~= s.take(j));
        assert(s.take(k).last() == s[j]);
        assert(s.skip(j) =~= seq![s[j]] + s.skip(k));
        lemma_angeheftete_verkettet(seq![s[j]], s.skip(k));
        assert(seq![s[j]].drop_last() =~= Seq::<Eintrag>::empty());
        assert(angeheftete(Seq::<Eintrag>::empty()) =~= Seq::<Eintrag>::empty());
        assert(seq![s[j]].last() == s[j]);
        if s[j].angeheftet {
            assert(angeheftete(seq![s[j]]) =~= seq![s[j]]);
            assert(s.take(j) + angeheftete(s.skip(j)) =~= s.take(k) + angeheftete(s.skip(k)));
        } else {
            assert(angeheftete(seq![s[j]]) =~= Seq::<Eintrag>::empty());
            let vorher = s.take(j) + angeheftete(s.skip(j));
            assert(vergessene(s.take(k)) == vergessene(s.take(j)).push((j as usize, s[j])));
            assert(vergessene(s.take(k)).drop_last() =~= vergessene(s.take(j)));
            assert(vorher.insert(j, s[j]) =~= s.take(k) + angeheftete(s.skip(k)));
        }
    }
}

/// Gibt es einen Eintrag mit Nummer `n`, dann auch einen ersten.
pub(crate) proof fn lemma_erste_vorhanden(s: Seq<Eintrag>, n: nat, k: int)
    requires
        0 <= k < s.len(),
        s[k].nummer == n,
    ensures
        exists|w: int| erste_stelle(s, n, w),
    decreases k,
{
    if exists|j: int| 0 <= j < k && #[trigger] s[j].nummer == n {
        let j = choose|j: int| 0 <= j < k && #[trigger] s[j].nummer == n;
        lemma_erste_vorhanden(s, n, j);
    } else {
        assert(erste_stelle(s, n, k));
    }
}

/// Kürzen lässt jeden angehefteten Eintrag stehen, in seiner Reihenfolge,
/// und behält von den freien genau so viele, wie eingestellt sind, oder alle,
/// wenn es weniger sind.
pub proof fn kuerzen_behaelt_angeheftetes(s: Seq<Eintrag>, hoechstens: nat)
    ensures
        angeheftete(gekuerzt(s, hoechstens)) == angeheftete(s),
        frei(gekuerzt(s, hoechstens)) == if frei(s) < hoechstens {
            frei(s)
        } else {
            hoechstens
        },
    decreases s.len(),
{
    if s.len() > 0 {
        kuerzen_behaelt_angeheftetes(s.drop_last(), hoechstens);
        let v = gekuerzt(s.drop_last(), hoechstens);
        if s.last().angeheftet || frei(s) <= hoechstens {
            assert(v.push(s.last()).drop_last() =~= v);
        }
    }
}

pub(crate) proof fn lemma_vorkommen_verkettet(a: Seq<Eintrag>, b: Seq<Eintrag>, n: nat)
    ensures
        vorkommen(a + b, n) == vorkommen(a, n) + vorkommen(b, n),
    decreases b.len(),
{
    if b.len() == 0 {
        assert(a + b =~= a);
    } else {
        lemma_vorkommen_verkettet(a, b.drop_last(), n);
        assert((a + b).drop_last() =~= a + b.drop_last());
    }
}

pub(crate) proof fn lemma_vorkommen_einzeln(e: Eintrag, n: nat)
    ensures
        vorkommen(seq![e], n) == if e.nummer == n {
            1nat
        } else {
            0nat
        },
{
    assert(seq![e].drop_last() =~= Seq::<Eintrag>::empty());
    assert(vorkommen(Seq::<Eintrag>::empty(), n) == 0);
    assert(seq![e].last() == e);
}

pub(crate) proof fn lemma_vorkommen_einsetzen(s: Seq<Eintrag>, i: int, e: Eintrag, n: nat)
    requires
        0 <= i <= s.len(),
    ensures
        vorkommen(s.insert(i, e), n) == vorkommen(s, n) + vorkommen(seq![e], n),
{
    assert(s =~= s.take(i) + s.skip(i));
    assert(s.insert(i, e) =~= s.take(i) + (seq![e] + s.skip(i)));
    lemma_vorkommen_verkettet(s.take(i), s.skip(i), n);
    lemma_vorkommen_verkettet(s.take(i), seq![e] + s.skip(i), n);
    lemma_vorkommen_verkettet(seq![e], s.skip(i), n);
}

pub(crate) proof fn lemma_vorkommen_entfernen(s: Seq<Eintrag>, i: int, n: nat)
    requires
        0 <= i < s.len(),
    ensures
        vorkommen(s, n) == vorkommen(s.remove(i), n) + vorkommen(seq![s[i]], n),
{
    assert(s.remove(i).insert(i, s[i]) =~= s);
    lemma_vorkommen_einsetzen(s.remove(i), i, s[i], n);
}

pub(crate) proof fn lemma_vorkommen_ersetzen(s: Seq<Eintrag>, i: int, e: Eintrag, n: nat)
    requires
        0 <= i < s.len(),
        e.nummer == s[i].nummer,
    ensures
        vorkommen(s.update(i, e), n) == vorkommen(s, n),
{
    lemma_vorkommen_entfernen(s, i, n);
    lemma_vorkommen_entfernen(s.update(i, e), i, n);
    assert(s.update(i, e).remove(i) =~= s.remove(i));
    lemma_vorkommen_einzeln(e, n);
    lemma_vorkommen_einzeln(s[i], n);
}

pub(crate) proof fn lemma_vorkommen_frisch(s: Seq<Eintrag>, z: Seq<(usize, Eintrag)>, naechste: nat)
    requires
        alle_gut(s, naechste),
        ablage_gut(z, naechste),
    ensures
        vorkommen(s, naechste) == 0,
        vorkommen_abgelegt(z, naechste) == 0,
    decreases s.len() + z.len(),
{
    if s.len() > 0 {
        assert(gut(s[s.len() - 1], naechste));
        lemma_vorkommen_frisch(s.drop_last(), z, naechste);
    }
    if z.len() > 0 {
        assert(gut(z[z.len() - 1].1, naechste));
        lemma_vorkommen_frisch(s, z.drop_last(), naechste);
    }
}

pub(crate) proof fn lemma_vorkommen_gekuerzt(s: Seq<Eintrag>, hoechstens: nat, n: nat)
    ensures
        vorkommen(gekuerzt(s, hoechstens), n) <= vorkommen(s, n),
    decreases s.len(),
{
    if s.len() > 0 {
        lemma_vorkommen_gekuerzt(s.drop_last(), hoechstens, n);
        let v = gekuerzt(s.drop_last(), hoechstens);
        assert(v.push(s.last()).drop_last() =~= v);
    }
}

pub(crate) proof fn lemma_vorkommen_vergessen(s: Seq<Eintrag>, n: nat)
    ensures
        vorkommen(angeheftete(s), n) + vorkommen_abgelegt(vergessene(s), n) == vorkommen(s, n),
    decreases s.len(),
{
    if s.len() > 0 {
        lemma_vorkommen_vergessen(s.drop_last(), n);
        let a = angeheftete(s.drop_last());
        let v = vergessene(s.drop_last());
        assert(a.push(s.last()).drop_last() =~= a);
        assert(v.push(((s.len() - 1) as usize, s.last())).drop_last() =~= v);
    }
}

pub(crate) proof fn lemma_vorkommen_wieder_eingesetzt(s: Seq<Eintrag>, z: Seq<(usize, Eintrag)>, n: nat)
    ensures
        vorkommen(wieder_eingesetzt(s, z), n) == vorkommen(s, n) + vorkommen_abgelegt(z, n),
    decreases z.len(),
{
    if z.len() > 0 {
        lemma_vorkommen_wieder_eingesetzt(s, z.drop_last(), n);
        let vorher = wieder_eingesetzt(s, z.drop_last());
        let stelle = if (z.last().0 as int) < vorher.len() {
            z.last().0 as int
        } else {
            vorher.len() as int
        };
        lemma_vorkommen_einsetzen(vorher, stelle, z.last().1, n);
        lemma_vorkommen_einzeln(z.last().1, n);
    }
}

pub(crate) proof fn lemma_vorkommen_eins(i: usize, e: Eintrag, n: nat)
    ensures
        vorkommen_abgelegt(seq![(i, e)], n) == if e.nummer == n {
            1nat
        } else {
            0nat
        },
        vorkommen_abgelegt(Seq::<(usize, Eintrag)>::empty(), n) == 0,
{
    assert(seq![(i, e)].drop_last() =~= Seq::<(usize, Eintrag)>::empty());
    assert(vorkommen_abgelegt(Seq::<(usize, Eintrag)>::empty(), n) == 0);
    assert(seq![(i, e)].last() == (i, e));
}

/// Eine Stelle mit Nummer `n` lässt sie wenigstens einmal vorkommen.
pub(crate) proof fn lemma_vorkommen_mindestens(s: Seq<Eintrag>, i: int)
    requires
        0 <= i < s.len(),
    ensures
        vorkommen(s, s[i].nummer as nat) >= 1,
{
    let n = s[i].nummer as nat;
    lemma_vorkommen_entfernen(s, i, n);
    lemma_vorkommen_einzeln(s[i], n);
}

/// Nach „Alles vergessen" ändert Kürzen nichts mehr: Was bleibt, ist
/// angeheftet, und Angeheftetes zählt nicht zur Anzahl. Das Zurücknehmen
/// findet die Liste also so vor, wie „Alles vergessen" sie liess, bis zum
/// nächsten Diktat.
pub proof fn angeheftetes_bleibt_beim_kuerzen(s: Seq<Eintrag>, hoechstens: nat)
    ensures
        gekuerzt(angeheftete(s), hoechstens) == angeheftete(s),
    decreases s.len(),
{
    if s.len() > 0 {
        angeheftetes_bleibt_beim_kuerzen(s.drop_last(), hoechstens);
        let a = angeheftete(s.drop_last());
        if s.last().angeheftet {
            assert(a.push(s.last()).drop_last() =~= a);
        }
    }
}

/// Wer höchstens `hoechstens` freie Einträge hat, dem nimmt Kürzen nichts.
pub proof fn kuerzen_ohne_ueberhang(s: Seq<Eintrag>, hoechstens: nat)
    requires
        frei(s) <= hoechstens,
    ensures
        gekuerzt(s, hoechstens) == s,
    decreases s.len(),
{
    if s.len() > 0 {
        kuerzen_ohne_ueberhang(s.drop_last(), hoechstens);
        assert(s.drop_last().push(s.last()) =~= s);
    }
}

/// Zweimal kürzen ist einmal kürzen auf die kleinere Anzahl; insbesondere
/// ändert ein zweites Kürzen auf dieselbe Anzahl nichts mehr.
pub proof fn zweimal_kuerzen(s: Seq<Eintrag>, erst: nat, dann: nat)
    ensures
        gekuerzt(gekuerzt(s, erst), dann) == gekuerzt(s, if erst < dann {
            erst
        } else {
            dann
        }),
        gekuerzt(gekuerzt(s, erst), erst) == gekuerzt(s, erst),
    decreases s.len(),
{
    let kleiner = if erst < dann {
        erst
    } else {
        dann
    };
    if s.len() > 0 {
        zweimal_kuerzen(s.drop_last(), erst, dann);
        kuerzen_behaelt_angeheftetes(s, erst);
        let v = gekuerzt(s.drop_last(), erst);
        let g = gekuerzt(s, erst);
        if s.last().angeheftet || frei(s) <= erst {
            assert(g.drop_last() =~= v);
            assert(g.last() == s.last());
        } else {
            assert(g == v);
            kuerzen_behaelt_angeheftetes(s.drop_last(), erst);
        }
    }
    let g = gekuerzt(s, erst);
    kuerzen_behaelt_angeheftetes(s, erst);
    kuerzen_ohne_ueberhang(g, erst);
}

/// Ein herausgenommener Eintrag macht die Zahl der freien nicht grösser.
pub(crate) proof fn lemma_frei_entfernen(s: Seq<Eintrag>, i: int)
    requires
        0 <= i < s.len(),
    ensures
        frei(s.remove(i)) <= frei(s),
    decreases s.len(),
{
    if i < s.len() - 1 {
        lemma_frei_entfernen(s.drop_last(), i);
        assert(s.remove(i).drop_last() =~= s.drop_last().remove(i));
        assert(s.remove(i).last() == s.last());
    } else {
        assert(s.remove(i) =~= s.drop_last());
    }
}

/// Was „Alles vergessen" wegnimmt, steht aufsteigend nach Stellen, jede
/// Stelle innerhalb der alten Liste.
pub(crate) proof fn lemma_vergessene_aufsteigend(s: Seq<Eintrag>)
    requires
        s.len() <= usize::MAX,
    ensures
        stellen_aufsteigend(vergessene(s)),
        forall|i: int| 0 <= i < vergessene(s).len() ==> (#[trigger] vergessene(s)[i]).0 < s.len(),
    decreases s.len(),
{
    if s.len() > 0 {
        lemma_vergessene_aufsteigend(s.drop_last());
    }
}

/// Ohne Liste oder ohne Zurückgelegtes bleiben die Nummern eindeutig.
pub(crate) proof fn lemma_eindeutig_ohne(s: Seq<Eintrag>, z: Seq<(usize, Eintrag)>)
    requires
        nummern_eindeutig(s, z),
    ensures
        nummern_eindeutig(Seq::<Eintrag>::empty(), z),
        nummern_eindeutig(s, Seq::<(usize, Eintrag)>::empty()),
{
    assert forall|n: nat|
        #[trigger] vorkommen(Seq::<Eintrag>::empty(), n) + vorkommen_abgelegt(z, n) <= 1 by {
        assert(vorkommen(s, n) + vorkommen_abgelegt(z, n) <= 1);
    }
    assert forall|n: nat|
        #[trigger] vorkommen(s, n) + vorkommen_abgelegt(Seq::<(usize, Eintrag)>::empty(), n)
            <= 1 by {
        assert(vorkommen(s, n) + vorkommen_abgelegt(z, n) <= 1);
    }
}

} // verus!
