//! Der Verlauf: die aufgehobenen Diktate, jüngstes zuerst, und was der
//! letzte Löschvorgang weggenommen hat.

use std::collections::VecDeque;

use vstd::prelude::*;

use crate::eintrag::{
    Eintrag, Jetzt, ablage_gut, alle_gut, angeheftete, erste_stelle, fehlt, frei, gekuerzt, gut,
    lemma_angeheftete_gut, lemma_erste_stelle, lemma_erste_vorhanden, lemma_gekuerzt_gut,
    lemma_vergessene_zahl, lemma_vorkommen_eins, lemma_vorkommen_einsetzen,
    lemma_vorkommen_einzeln, lemma_vorkommen_entfernen, lemma_vorkommen_ersetzen,
    lemma_vorkommen_frisch, lemma_vorkommen_gekuerzt, lemma_vorkommen_mindestens,
    lemma_vorkommen_vergessen, lemma_vorkommen_wieder_eingesetzt, lemma_wieder_eingesetzt_bis,
    lemma_wieder_eingesetzt_gut, lemma_vergessene_aufsteigend, lemma_frei_entfernen,
    kuerzen_ohne_ueberhang, lemma_eindeutig_ohne, stellen_aufsteigend, nummern_eindeutig, sicht, sicht_str, stelle_von, texte,
    vergessene, vorkommen, vorkommen_abgelegt, wieder_eingesetzt,
};
use crate::seite::{
    Kachel, Knopf, Seite, bemerkung, kachel_zu, knopf, knopf_ist, mehrsprachig_in, meta,
    seitenknopf_label, wann,
};
use crate::text::{
    dezimal, dezimal_text, gelesene_zahl, gleich, ist_nur_leerraum, nur_leerraum, sichten, verbinden,
    verbunden, woerter_zaehlen, wortzahl, zahl_lesen,
};
use crate::uhr::handlich_ist_rechenbar;

verus! {

/// Der ganze Zustand des Verlaufs.
pub struct Verlauf {
    eintraege: VecDeque<Eintrag>,
    naechste: u64,
    /// Was der letzte Löschvorgang weggenommen hat, samt seiner Stelle.
    zurueckgelegt: Vec<(usize, Eintrag)>,
}

/// Was ein Ereignis an Inhalt mitbringt, so weit der Verlauf es liest.
///
/// Jedes Feld fehlt, wenn die Nachricht es nicht oder nicht in dieser Art
/// trägt.
#[derive(Debug, Clone, PartialEq, Eq)]
pub struct Nachricht {
    /// Der diktierte Text (`text`).
    pub text: Option<String>,
    /// Wie viele Wörter Logsy Voice gezählt hat (`words`).
    pub woerter: Option<u64>,
    /// Das Sprachkürzel (`language`).
    pub sprache: Option<String>,
    /// Der geklickte Knopf (`action`).
    pub aktion: Option<String>,
    /// Der Eintrag, den der Knopf meint (`item`).
    pub eintrag: Option<String>,
    /// Die eingestellte Anzahl (`settings.anzahl`).
    pub anzahl: Option<String>,
}

/// Was ein Ereignis zurückgibt: nichts, oder die Seite.
pub type Ergebnis = Result<Option<Seite>, String>;

/// Was auf ein Ereignis folgt.
#[derive(Debug, PartialEq, Eq)]
pub enum Schritt {
    /// Die Antwort steht fest.
    Antwort(Ergebnis),
    /// Dieser Text gehört in die Zwischenablage; danach gibt
    /// [`Verlauf::nach_dem_kopieren`] die Antwort.
    Kopieren(String),
}

/// Die Knöpfe unter der Liste, jeder nur, wenn er etwas zu tun hätte:
/// alles kopieren, zurücknehmen, alles vergessen.
pub open spec fn seitenknoepfe(v: Verlauf) -> Seq<Seq<char>> {
    let a = if v.liste().len() > 0 {
        seq!["copy-all"@]
    } else {
        seq![]
    };
    let b = if v.ablage().len() > 0 {
        a.push("undo"@)
    } else {
        a
    };
    if exists|i: int| 0 <= i < v.liste().len() && !(#[trigger] v.liste()[i]).angeheftet {
        b.push("clear"@)
    } else {
        b
    }
}

/// Die Seite zum Verlauf `v`, mit dem Hinweis über der Liste, wenn einer da
/// ist, sonst der Bemerkung, wenn die Liste nicht leer ist.
pub open spec fn seite_zu(v: Verlauf, hinweis: Option<Seq<char>>, jetzt: Jetzt, seite: Seite) -> bool {
    let s = v.liste();
    let ids = seitenknoepfe(v);
    &&& seite.items@.len() == s.len()
    &&& forall|i: int|
        0 <= i < s.len() ==> kachel_zu(
            #[trigger] seite.items@[i],
            s[i],
            mehrsprachig_in(s),
            jetzt,
        )
    &&& sicht(seite.note) == match hinweis {
        Some(h) => Some(h),
        None => if s.len() > 0 {
            Some(bemerkung())
        } else {
            None
        },
    }
    &&& seite.actions@.len() == ids.len()
    &&& forall|i: int|
        0 <= i < ids.len() ==> knopf_ist(
            #[trigger] seite.actions@[i],
            ids[i],
            seitenknopf_label(ids[i]),
            None,
            ids[i] == "clear"@,
        )
}

/// Die Nummer, die ein Knopf nennt: der Eintrag als Zahl gelesen.
pub open spec fn kennung_von(eintrag: Option<Seq<char>>) -> Option<nat> {
    match eintrag {
        Some(s) => gelesene_zahl(s, u64::MAX as nat),
        None => None,
    }
}

/// Der Grund, wenn ein Knopf keinen Satz nennt.
pub open spec fn ohne_satz() -> Seq<char> {
    "Der Knopf sagt nicht, welchen Satz er meint."@
}

/// Der Grund, wenn der genannte Satz nicht mehr da ist.
pub open spec fn nicht_mehr_da() -> Seq<char> {
    "Diesen Satz gibt es nicht mehr."@
}

/// Die eingestellte Anzahl, wenn keine oder keine lesbare angegeben ist.
pub const VORGABE_ANZAHL: usize = 20;

/// Das Ergebnis eines Klicks, als Sicht: der Text für die Zwischenablage,
/// wenn einer kopiert werden soll, oder der Grund, warum es nicht ging.
pub open spec fn ergebnis_sicht(r: Result<Option<String>, String>) -> Result<Option<Seq<char>>, Seq<char>> {
    match r {
        Ok(Some(t)) => Ok(Some(t@)),
        Ok(None) => Ok(None),
        Err(g) => Err(g@),
    }
}

/// Nichts am Verlauf hat sich geändert.
pub open spec fn unveraendert(alt: Verlauf, neu: Verlauf) -> bool {
    &&& neu.liste() == alt.liste()
    &&& neu.ablage() == alt.ablage()
    &&& neu.naechste_nummer() == alt.naechste_nummer()
}

/// Was ein Klick auf den Knopf `aktion` mit dem genannten `eintrag` aus dem
/// Verlauf `alt` macht (`neu`) und zurückgibt (`r`).
///
/// - `copy`: den Text des genannten Satzes, zum Kopieren.
/// - `copy-all`: alle Texte, durch eine Leerzeile getrennt; nichts bei leerer
///   Liste.
/// - `pin`: heftet den genannten Satz an oder löst ihn.
/// - `delete`: nimmt ihn heraus und legt ihn mit seiner Stelle zurück; einen
///   Satz, den es nicht mehr gibt, übergeht es.
/// - `clear`: behält nur Angeheftetes und legt den Rest zurück; nimmt es
///   nichts weg, bleibt das Zurückgelegte, wie es war.
/// - `undo`: setzt alles Zurückgelegte wieder ein.
/// - Jeder andere Knopf ändert nichts.
pub open spec fn versuch(
    alt: Verlauf,
    neu: Verlauf,
    aktion: Seq<char>,
    eintrag: Option<Seq<char>>,
    r: Result<Option<Seq<char>>, Seq<char>>,
) -> bool {
    let s = alt.liste();
    if aktion == "copy"@ {
        &&& unveraendert(alt, neu)
        &&& match kennung_von(eintrag) {
            None => r == Err::<Option<Seq<char>>, Seq<char>>(ohne_satz()),
            Some(n) => if fehlt(s, n) {
                r == Err::<Option<Seq<char>>, Seq<char>>(nicht_mehr_da())
            } else {
                r == Ok::<Option<Seq<char>>, Seq<char>>(Some(s[stelle_von(s, n)].text@))
            },
        }
    } else if aktion == "copy-all"@ {
        &&& unveraendert(alt, neu)
        &&& r == Ok::<Option<Seq<char>>, Seq<char>>(
            if s.len() == 0 {
                None
            } else {
                Some(verbunden(texte(s), "\n\n"@))
            },
        )
    } else if aktion == "pin"@ {
        &&& neu.ablage() == alt.ablage()
        &&& neu.naechste_nummer() == alt.naechste_nummer()
        &&& match kennung_von(eintrag) {
            None => neu.liste() == s && r == Err::<Option<Seq<char>>, Seq<char>>(ohne_satz()),
            Some(n) => if fehlt(s, n) {
                neu.liste() == s && r == Err::<Option<Seq<char>>, Seq<char>>(nicht_mehr_da())
            } else {
                let i = stelle_von(s, n);
                &&& neu.liste() == s.update(i, Eintrag { angeheftet: !s[i].angeheftet, ..s[i] })
                &&& r == Ok::<Option<Seq<char>>, Seq<char>>(None)
            },
        }
    } else if aktion == "delete"@ {
        &&& neu.naechste_nummer() == alt.naechste_nummer()
        &&& match kennung_von(eintrag) {
            None => unveraendert(alt, neu) && r == Err::<Option<Seq<char>>, Seq<char>>(ohne_satz()),
            Some(n) => if fehlt(s, n) {
                unveraendert(alt, neu) && r == Ok::<Option<Seq<char>>, Seq<char>>(None)
            } else {
                let i = stelle_von(s, n);
                &&& neu.liste() == s.remove(i)
                &&& neu.ablage() == seq![(i as usize, s[i])]
                &&& r == Ok::<Option<Seq<char>>, Seq<char>>(None)
            },
        }
    } else if aktion == "clear"@ {
        &&& neu.liste() == angeheftete(s)
        &&& neu.ablage() == if vergessene(s).len() > 0 {
            vergessene(s)
        } else {
            alt.ablage()
        }
        &&& neu.naechste_nummer() == alt.naechste_nummer()
        &&& r == Ok::<Option<Seq<char>>, Seq<char>>(None)
    } else if aktion == "undo"@ {
        &&& neu.liste() == wieder_eingesetzt(s, alt.ablage())
        &&& neu.ablage() == Seq::<(usize, Eintrag)>::empty()
        &&& neu.naechste_nummer() == alt.naechste_nummer()
        &&& r == Ok::<Option<Seq<char>>, Seq<char>>(None)
    } else {
        unveraendert(alt, neu) && r == Ok::<Option<Seq<char>>, Seq<char>>(None)
    }
}

/// Die Kennung aus einer Aktion: der genannte Eintrag als Nummer.
pub fn kennung(eintrag: Option<&str>) -> (r: Result<u64, String>)
    ensures
        match r {
            Ok(n) => kennung_von(sicht_str(eintrag)) == Some(n as nat),
            Err(g) => kennung_von(sicht_str(eintrag)) is None && g@ == ohne_satz(),
        },
{
    let gelesen = match eintrag {
        Some(w) => zahl_lesen(w, u64::MAX),
        None => None,
    };
    match gelesen {
        Some(n) => Ok(n),
        None => Err(String::from_str("Der Knopf sagt nicht, welchen Satz er meint.")),
    }
}

/// Die eingestellte Anzahl, wie viele Sätze aufgehoben werden.
///
/// Die Auswahl liefert Zeichenketten — das Format kennt nur `boolean` und
/// `choice`, und eine Auswahl hat Werte, keine Zahlen. Ohne lesbare Angabe
/// gilt [`VORGABE_ANZAHL`].
pub fn anzahl(wert: Option<&str>) -> (r: usize)
    ensures
        r == match wert {
            Some(w) => match gelesene_zahl(w@, usize::MAX as nat) {
                Some(n) => n,
                None => VORGABE_ANZAHL as nat,
            },
            None => VORGABE_ANZAHL as nat,
        },
{
    match wert {
        Some(w) => match zahl_lesen(w, usize::MAX as u64) {
            Some(n) => n as usize,
            None => VORGABE_ANZAHL,
        },
        None => VORGABE_ANZAHL,
    }
}

/// Was das Aufnehmen eines Diktats aus dem Verlauf `alt` macht (`neu`).
///
/// Zweimal derselbe Satz hintereinander wird zu einem Eintrag, der ein Mal
/// mehr zählt und die neue Zeit bekommt. Sonst kommt vorn ein neuer Eintrag
/// mit der nächsten freien Nummer dazu; ohne Angabe der Wörter zählt er sie
/// selbst.
pub open spec fn aufgenommen(
    alt: Verlauf,
    neu: Verlauf,
    text: Seq<char>,
    woerter: Option<u64>,
    sprache: Option<Seq<char>>,
    jetzt: Jetzt,
) -> bool {
    let a = alt.liste();
    let n = neu.liste();
    &&& neu.ablage() == alt.ablage()
    &&& if a.len() > 0 && a[0].text@ == text {
        &&& n == a.update(
            0,
            Eintrag { male: (a[0].male + 1) as u32, empfangen: jetzt.nanos, uhrzeit: jetzt.zeit, ..a[0] },
        )
        &&& neu.naechste_nummer() == alt.naechste_nummer()
    } else {
        &&& n.len() == a.len() + 1
        &&& n.drop_first() == a
        &&& n[0].nummer == alt.naechste_nummer()
        &&& n[0].text@ == text
        &&& n[0].woerter == match woerter {
            Some(w) => w as nat,
            None => wortzahl(text),
        }
        &&& sicht(n[0].sprache) == sprache
        &&& n[0].empfangen == jetzt.nanos
        &&& n[0].uhrzeit == jetzt.zeit
        &&& n[0].male == 1
        &&& !n[0].angeheftet
        &&& neu.naechste_nummer() == alt.naechste_nummer() + 1
    }
}

/// Der Knopf einer Nachricht; ohne Angabe der leere.
pub open spec fn aktion_von(n: Nachricht) -> Seq<char> {
    match n.aktion {
        Some(a) => a@,
        None => Seq::empty(),
    }
}

/// Die eingestellte Anzahl einer Nachricht.
pub open spec fn anzahl_von(n: Nachricht) -> nat {
    match n.anzahl {
        Some(w) => match gelesene_zahl(w@, usize::MAX as nat) {
            Some(k) => k,
            None => VORGABE_ANZAHL as nat,
        },
        None => VORGABE_ANZAHL as nat,
    }
}

/// Der Text eines Diktats, wenn er mehr als Leerraum trägt.
pub open spec fn diktat_von(n: Nachricht) -> Option<Seq<char>> {
    match n.text {
        Some(t) => if nur_leerraum(t@) {
            None
        } else {
            Some(t@)
        },
        None => None,
    }
}

/// Der Hinweis über der Liste nach einem Klick: der Grund, wenn er nichts
/// tun konnte.
pub open spec fn hinweis_aus(r: Result<Option<Seq<char>>, Seq<char>>) -> Option<Seq<char>> {
    match r {
        Err(g) => Some(g),
        Ok(_) => None,
    }
}

/// Die Seite als Antwort, nach dem Kürzen auf die eingestellte Anzahl.
pub open spec fn gekuerzt_mit_seite(
    vorher: Verlauf,
    neu: Verlauf,
    n: Nachricht,
    hinweis: Option<Seq<char>>,
    jetzt: Jetzt,
    r: Ergebnis,
) -> bool {
    &&& neu.liste() == gekuerzt(vorher.liste(), anzahl_von(n))
    &&& neu.ablage() == vorher.ablage()
    &&& neu.naechste_nummer() == vorher.naechste_nummer()
    &&& (r matches Ok(Some(seite)) && seite_zu(neu, hinweis, jetzt, seite))
}

/// Was ein Ereignis aus dem Verlauf `alt` macht (`neu`) und worauf es führt
/// (`r`).
///
/// - `transcript.final`: Ein Diktat, das mehr als Leerraum trägt, wird
///   aufgenommen, die Liste gekürzt, und das Zurückgelegte verfällt.
/// - `view.render`: gekürzt, dann die Seite.
/// - `view.action`: der Klick, dann gekürzt und die Seite mit seinem Grund,
///   wenn er nichts tun konnte; soll etwas in die Zwischenablage, erst das.
/// - Jedes andere Ereignis, auch ein unbekanntes, ist kein Fehler und ändert
///   nichts.
pub open spec fn behandlung(
    alt: Verlauf,
    neu: Verlauf,
    ereignis: Seq<char>,
    n: Nachricht,
    jetzt: Jetzt,
    r: Schritt,
) -> bool {
    if ereignis == "transcript.final"@ {
        &&& r == Schritt::Antwort(Ok(None))
        &&& match diktat_von(n) {
            None => unveraendert(alt, neu),
            Some(t) => exists|mitte: Verlauf|
                {
                    &&& #[trigger] aufgenommen(alt, mitte, t, n.woerter, sicht(n.sprache), jetzt)
                    &&& neu.liste() == gekuerzt(mitte.liste(), anzahl_von(n))
                    &&& neu.naechste_nummer() == mitte.naechste_nummer()
                    &&& neu.ablage() == Seq::<(usize, Eintrag)>::empty()
                },
        }
    } else if ereignis == "view.render"@ {
        (r matches Schritt::Antwort(e) && gekuerzt_mit_seite(alt, neu, n, None, jetzt, e))
    } else if ereignis == "view.action"@ {
        exists|mitte: Verlauf, rv: Result<Option<Seq<char>>, Seq<char>>|
            {
                &&& #[trigger] versuch(alt, mitte, aktion_von(n), sicht(n.eintrag), rv)
                &&& match rv {
                    Ok(Some(t)) => unveraendert(mitte, neu) && (r matches Schritt::Kopieren(k) && k@
                        == t),
                    _ => (r matches Schritt::Antwort(e) && gekuerzt_mit_seite(
                        mitte,
                        neu,
                        n,
                        hinweis_aus(rv),
                        jetzt,
                        e,
                    )),
                }
            }
    } else {
        unveraendert(alt, neu) && r == Schritt::Antwort(Ok(None))
    }
}

/// Ob ein Ereignis behandelt werden kann: Die Ortszeit ist handlich, und
/// ein Diktat lässt keinen Zähler überlaufen.
pub open spec fn behandelbar(v: Verlauf, ereignis: Seq<char>, n: Nachricht, jetzt: Jetzt) -> bool {
    &&& jetzt.zeit.handlich()
    &&& ereignis == "transcript.final"@ ==> match diktat_von(n) {
        Some(t) => v.aufnahme_moeglich(t),
        None => true,
    }
}

impl Verlauf {
    /// Die Einträge, jüngster zuerst.
    pub closed spec fn liste(self) -> Seq<Eintrag> {
        self.eintraege@
    }

    /// Die nächste freie Nummer.
    pub closed spec fn naechste_nummer(self) -> nat {
        self.naechste as nat
    }

    /// Was „Zurücknehmen" wieder einsetzen würde: Stelle und Eintrag.
    pub closed spec fn ablage(self) -> Seq<(usize, Eintrag)> {
        self.zurueckgelegt@
    }

    /// Was ein Verlauf immer erfüllt: Jede Nummer ist vergeben, bevor die
    /// nächste freie gezählt wird, keine steht zweimal, jede Uhrzeit ist
    /// handlich, und das Zurückgelegte steht aufsteigend nach Stellen.
    #[verifier::type_invariant]
    pub open spec fn wf(self) -> bool {
        &&& alle_gut(self.liste(), self.naechste_nummer())
        &&& ablage_gut(self.ablage(), self.naechste_nummer())
        &&& nummern_eindeutig(self.liste(), self.ablage())
        &&& stellen_aufsteigend(self.ablage())
    }

    /// Die Liste ist nie länger, als ein `usize` zählt.
    pub proof fn lemma_laenge(self)
        ensures
            self.liste().len() <= usize::MAX,
    {
        assert(self.eintraege.len() == self.eintraege@.len());
    }

    /// Ein leerer Verlauf; die erste Nummer ist 1.
    pub fn neu() -> (r: Self)
        ensures
            r.liste() == Seq::<Eintrag>::empty(),
            r.ablage() == Seq::<(usize, Eintrag)>::empty(),
            r.naechste_nummer() == 1,
    {
        Verlauf { eintraege: VecDeque::new(), naechste: 1, zurueckgelegt: Vec::new() }
    }

    /// Die Einträge, jüngster zuerst.
    pub fn eintraege(&self) -> (r: &VecDeque<Eintrag>)
        ensures
            r@ == self.liste(),
    {
        &self.eintraege
    }

    /// Ob „Zurücknehmen" etwas zurückholen würde.
    pub fn kann_zuruecknehmen(&self) -> (r: bool)
        ensures
            r == (self.ablage().len() > 0),
    {
        self.zurueckgelegt.len() > 0
    }

    /// Ob ein Diktat dieses Textes aufgenommen werden kann, ohne dass ein
    /// Zähler überläuft.
    pub open spec fn aufnahme_moeglich(self, text: Seq<char>) -> bool {
        &&& self.naechste_nummer() < u64::MAX
        &&& (self.liste().len() > 0 && self.liste()[0].text@ == text) ==> self.liste()[0].male
            < u32::MAX
    }

    /// Prüft `aufnahme_moeglich`.
    pub fn kann_aufnehmen(&self, text: &str) -> (r: bool)
        ensures
            r == self.aufnahme_moeglich(text@),
    {
        if self.naechste == u64::MAX {
            return false;
        }
        if self.eintraege.len() > 0 && gleich(self.eintraege[0].text.as_str(), text) {
            self.eintraege[0].male < u32::MAX
        } else {
            true
        }
    }

    /// Nimmt die Liste heraus; zurück bleibt der Verlauf ohne Einträge.
    fn liste_nehmen(&mut self) -> (liste: VecDeque<Eintrag>)
        ensures
            liste@ == old(self).liste(),
            final(self).liste() == Seq::<Eintrag>::empty(),
            final(self).ablage() == old(self).ablage(),
            final(self).naechste_nummer() == old(self).naechste_nummer(),
    {
        proof {
            use_type_invariant(&*self);
            lemma_eindeutig_ohne(self.liste(), self.ablage());
        }
        let mut liste: VecDeque<Eintrag> = VecDeque::new();
        std::mem::swap(&mut liste, &mut self.eintraege);
        liste
    }

    /// Nimmt das Zurückgelegte heraus; zurück bleibt der Verlauf ohne.
    fn ablage_nehmen(&mut self) -> (ablage: Vec<(usize, Eintrag)>)
        ensures
            ablage@ == old(self).ablage(),
            final(self).ablage() == Seq::<(usize, Eintrag)>::empty(),
            final(self).liste() == old(self).liste(),
            final(self).naechste_nummer() == old(self).naechste_nummer(),
    {
        proof {
            use_type_invariant(&*self);
            lemma_eindeutig_ohne(self.liste(), self.ablage());
        }
        let mut ablage: Vec<(usize, Eintrag)> = Vec::new();
        std::mem::swap(&mut ablage, &mut self.zurueckgelegt);
        ablage
    }

    /// Wirft hinten heraus, was über die eingestellte Anzahl hinausgeht.
    ///
    /// Angeheftetes zählt nicht mit und bleibt. Wer einen Satz festhält, will
    /// ihn nicht dadurch verlieren, dass er weiterdiktiert.
    pub fn kuerzen(&mut self, hoechstens: usize)
        ensures
            final(self).liste() == gekuerzt(old(self).liste(), hoechstens as nat),
            final(self).ablage() == old(self).ablage(),
            final(self).naechste_nummer() == old(self).naechste_nummer(),
    {
        proof {
            use_type_invariant(&*self);
        }
        let ghost alt = self.eintraege@;
        let anzahl = self.eintraege.len();
        let mut rest = self.liste_nehmen();
        let mut bleibt: VecDeque<Eintrag> = VecDeque::new();
        let mut frei_gesehen: usize = 0;
        let mut i: usize = 0;
        while rest.len() > 0
            invariant
                alt == old(self).eintraege@,
                rest@ == alt.skip(i as int),
                i <= alt.len(),
                alt.len() == anzahl,
                bleibt@ == gekuerzt(alt.take(i as int), hoechstens as nat),
                frei_gesehen == frei(alt.take(i as int)),
                frei_gesehen <= i,
                self.naechste_nummer() == old(self).naechste_nummer(),
                self.ablage() == old(self).ablage(),
                self.liste() == Seq::<Eintrag>::empty(),
            decreases rest.len(),
        {
            let e = rest.pop_front().unwrap();
            assert(alt.take(i + 1).drop_last() =~= alt.take(i as int));
            assert(alt.take(i + 1).last() == e);
            if e.angeheftet {
                bleibt.push_back(e);
            } else {
                frei_gesehen = frei_gesehen + 1;
                if frei_gesehen <= hoechstens {
                    bleibt.push_back(e);
                }
            }
            i = i + 1;
            assert(rest@ =~= alt.skip(i as int));
        }
        assert(alt.take(i as int) =~= alt);
        proof {
            lemma_gekuerzt_gut(alt, hoechstens as nat, self.naechste as nat);
            assert forall|n: nat|
                #[trigger] vorkommen(bleibt@, n) + vorkommen_abgelegt(self.ablage(), n)
                    <= 1 by {
                lemma_vorkommen_gekuerzt(alt, hoechstens as nat, n);
                assert(vorkommen(alt, n) + vorkommen_abgelegt(self.ablage(), n) <= 1);
            }
        }
        self.eintraege = bleibt;
    }

    /// Die erste Stelle eines Eintrags mit dieser Nummer.
    fn stelle(&self, nummer: u64) -> (r: Option<usize>)
        ensures
            match r {
                Some(i) => erste_stelle(self.liste(), nummer as nat, i as int) && stelle_von(
                    self.liste(),
                    nummer as nat,
                ) == i,
                None => fehlt(self.liste(), nummer as nat),
            },
    {
        let mut i: usize = 0;
        while i < self.eintraege.len()
            invariant
                i <= self.liste().len(),
                forall|k: int| 0 <= k < i ==> #[trigger] self.liste()[k].nummer != nummer,
            decreases self.liste().len() - i,
        {
            if self.eintraege[i].nummer == nummer {
                proof {
                    lemma_erste_stelle(self.liste(), nummer as nat, i as int);
                }
                return Some(i);
            }
            i = i + 1;
        }
        None
    }

    /// Führt einen Klick aus.
    ///
    /// `Ok(Some(text))` heisst: Dieser Text gehört in die Zwischenablage.
    /// `Err` trägt den Grund, warum der Klick nichts tun konnte.
    pub fn versuchen(&mut self, aktion: &str, eintrag: Option<&str>) -> (r: Result<Option<String>, String>)
        ensures
            versuch(*old(self), *final(self), aktion@, sicht_str(eintrag), ergebnis_sicht(r)),
    {
        proof {
            use_type_invariant(&*self);
            reveal_strlit("copy");
            reveal_strlit("copy-all");
            reveal_strlit("pin");
            reveal_strlit("delete");
            reveal_strlit("clear");
            reveal_strlit("undo");
        }
        if gleich(aktion, "copy") {
            let nummer = match kennung(eintrag) {
                Ok(n) => n,
                Err(g) => return Err(g),
            };
            match self.stelle(nummer) {
                Some(i) => Ok(Some(self.eintraege[i].text.clone())),
                None => Err(String::from_str("Diesen Satz gibt es nicht mehr.")),
            }
        } else if gleich(aktion, "copy-all") {
            if self.eintraege.len() == 0 {
                return Ok(None);
            }
            let mut alle: Vec<String> = Vec::new();
            let mut i: usize = 0;
            while i < self.eintraege.len()
                invariant
                    i <= self.liste().len(),
                    sichten(alle@) == texte(self.liste()).take(i as int),
                    alle@.len() == i,
                decreases self.liste().len() - i,
            {
                let t = self.eintraege[i].text.clone();
                let ghost vorher = alle@;
                alle.push(t);
                assert(sichten(alle@) =~= texte(self.liste()).take(i + 1)) by {
                    assert(sichten(alle@).len() == i + 1);
                    assert forall|k: int| 0 <= k < i + 1 implies #[trigger] sichten(alle@)[k]
                        == texte(self.liste()).take(i + 1)[k] by {
                        if k < i {
                            assert(sichten(alle@)[k] == sichten(vorher)[k]);
                        }
                    }
                }
                i = i + 1;
            }
            assert(texte(self.liste()).take(i as int) =~= texte(self.liste()));
            Ok(Some(verbinden(&alle, "\n\n")))
        } else if gleich(aktion, "pin") {
            let nummer = match kennung(eintrag) {
                Ok(n) => n,
                Err(g) => return Err(g),
            };
            match self.stelle(nummer) {
                Some(i) => {
                    let ghost alt = self.eintraege@;
                    let mut liste = self.liste_nehmen();
                    let mut gesucht = liste.remove(i).unwrap();
                    gesucht.angeheftet = !gesucht.angeheftet;
                    liste.insert(i, gesucht);
                    assert(liste@ =~= alt.update(i as int, gesucht));
                    assert(gut(alt[i as int], self.naechste as nat));
                    assert forall|n: nat|
                        #[trigger] vorkommen(liste@, n) + vorkommen_abgelegt(self.ablage(), n)
                            <= 1 by {
                        lemma_vorkommen_ersetzen(alt, i as int, gesucht, n);
                        assert(vorkommen(alt, n) + vorkommen_abgelegt(self.ablage(), n) <= 1);
                    }
                    self.eintraege = liste;
                    Ok(None)
                },
                None => Err(String::from_str("Diesen Satz gibt es nicht mehr.")),
            }
        } else if gleich(aktion, "delete") {
            let nummer = match kennung(eintrag) {
                Ok(n) => n,
                Err(g) => return Err(g),
            };
            let stelle = match self.stelle(nummer) {
                Some(i) => i,
                None => return Ok(None),
            };
            let ghost alt = self.eintraege@;
            let mut liste = self.liste_nehmen();
            if let Some(weg) = liste.remove(stelle) {
                assert(gut(alt[stelle as int], self.naechste as nat));
                let ablage = vec![(stelle, weg)];
                assert(ablage@ =~= seq![(stelle, alt[stelle as int])]);
                assert forall|n: nat|
                    #[trigger] vorkommen(liste@, n) + vorkommen_abgelegt(ablage@, n) <= 1 by {
                    lemma_vorkommen_entfernen(alt, stelle as int, n);
                    lemma_vorkommen_einzeln(alt[stelle as int], n);
                    lemma_vorkommen_eins(stelle, alt[stelle as int], n);
                    assert(vorkommen(alt, n) + vorkommen_abgelegt(old(self).ablage(), n) <= 1);
                }
                proof {
                    lemma_eindeutig_ohne(liste@, ablage@);
                }
                self.zurueckgelegt = ablage;
            }
            self.eintraege = liste;
            Ok(None)
        } else if gleich(aktion, "clear") {
            let ghost alt = self.eintraege@;
            let anzahl = self.eintraege.len();
            let mut rest = self.liste_nehmen();
            let mut zurueck: Vec<(usize, Eintrag)> = Vec::new();
            let mut bleibt: VecDeque<Eintrag> = VecDeque::new();
            let mut stelle: usize = 0;
            while rest.len() > 0
                invariant
                    alt == old(self).eintraege@,
                    alt.len() == anzahl,
                    rest@ == alt.skip(stelle as int),
                    stelle <= alt.len(),
                    bleibt@ == angeheftete(alt.take(stelle as int)),
                    zurueck@ == vergessene(alt.take(stelle as int)),
                    self.naechste_nummer() == old(self).naechste_nummer(),
                    self.ablage() == old(self).ablage(),
                    self.liste() == Seq::<Eintrag>::empty(),
                decreases rest.len(),
            {
                let e = rest.pop_front().unwrap();
                assert(alt.take(stelle + 1).drop_last() =~= alt.take(stelle as int));
                assert(alt.take(stelle + 1).last() == e);
                if e.angeheftet {
                    bleibt.push_back(e);
                } else {
                    zurueck.push((stelle, e));
                }
                stelle = stelle + 1;
                assert(rest@ =~= alt.skip(stelle as int));
            }
            assert(alt.take(stelle as int) =~= alt);
            proof {
                lemma_angeheftete_gut(alt, self.naechste as nat);
                lemma_vergessene_aufsteigend(alt);
            }
            let ghost ablage = if zurueck.len() > 0 {
                zurueck@
            } else {
                old(self).zurueckgelegt@
            };
            assert forall|n: nat|
                #[trigger] vorkommen(bleibt@, n) + vorkommen_abgelegt(ablage, n) <= 1 by {
                lemma_vorkommen_vergessen(alt, n);
                assert(vorkommen(alt, n) + vorkommen_abgelegt(old(self).ablage(), n) <= 1);
            }
            proof {
                lemma_eindeutig_ohne(bleibt@, ablage);
            }
            if zurueck.len() > 0 {
                self.zurueckgelegt = zurueck;
            }
            self.eintraege = bleibt;
            Ok(None)
        } else if gleich(aktion, "undo") {
            // Aufsteigend eingesetzt landet jeder Satz wieder an seiner alten
            // Stelle: Alles, was vor ihm stand, ist dann schon wieder da.
            let zurueck = self.ablage_nehmen();
            let mut liste = self.liste_nehmen();
            let ghost z = zurueck@;
            let ghost alt = old(self).eintraege@;
            for (stelle, e) in it: zurueck.into_iter()
                invariant
                    it.seq() == z,
                    z == old(self).zurueckgelegt@,
                    alt == old(self).eintraege@,
                    liste@ == wieder_eingesetzt(alt, z.take(it.index() as int)),
            {
                assert(z.take(it.index() + 1).drop_last() =~= z.take(it.index() as int));
                let stelle = if stelle < liste.len() {
                    stelle
                } else {
                    liste.len()
                };
                liste.insert(stelle, e);
            }
            assert(z.take(z.len() as int) =~= z);
            proof {
                lemma_wieder_eingesetzt_gut(alt, z, self.naechste as nat);
                assert forall|n: nat|
                    #[trigger] vorkommen(liste@, n) + vorkommen_abgelegt(self.ablage(), n)
                        <= 1 by {
                    lemma_vorkommen_wieder_eingesetzt(alt, z, n);
                    assert(vorkommen_abgelegt(self.ablage(), n) == 0);
                    assert(vorkommen(alt, n) + vorkommen_abgelegt(z, n) <= 1);
                }
            }
            self.eintraege = liste;
            Ok(None)
        } else {
            // Ein unbekannter Knopf kann nur von einem neueren Logsy Voice
            // kommen. Nichts zu tun ist richtiger, als etwas zu raten.
            Ok(None)
        }
    }

    /// Ob überhaupt mehr als eine Sprache im Verlauf steht.
    ///
    /// Nur dann sagt ein Kürzel an jedem Eintrag etwas. Wer immer deutsch
    /// diktiert, bekommt sonst zwanzigmal „DE" untereinander.
    pub fn mehrsprachig(&self) -> (r: bool)
        ensures
            r == mehrsprachig_in(self.liste()),
    {
        let ghost s = self.liste();
        let mut gesehen: Option<usize> = None;
        let mut i: usize = 0;
        while i < self.eintraege.len()
            invariant
                s == self.liste(),
                i <= s.len(),
                match gesehen {
                    None => forall|k: int| 0 <= k < i ==> (#[trigger] s[k]).sprache is None,
                    Some(g) => {
                        &&& g < i
                        &&& s[g as int].sprache is Some
                        &&& forall|k: int|
                            0 <= k < i && (#[trigger] s[k]).sprache is Some ==> s[k].sprache->0@
                                == s[g as int].sprache->0@
                    },
                },
            decreases s.len() - i,
        {
            if let Some(sprache) = &self.eintraege[i].sprache {
                match gesehen {
                    None => {
                        gesehen = Some(i);
                    },
                    Some(g) => {
                        let erste = self.eintraege[g].sprache.as_ref().unwrap();
                        if !gleich(erste.as_str(), sprache.as_str()) {
                            assert(mehrsprachig_in(s)) by {
                                assert((s[g as int]).sprache is Some && (s[i as int]).sprache is Some);
                            }
                            return true;
                        }
                    },
                }
            }
            i = i + 1;
        }
        assert(!mehrsprachig_in(s)) by {
            if mehrsprachig_in(s) {
                let (a, b) = choose|a: int, b: int|
                    0 <= a < s.len() && 0 <= b < s.len() && (#[trigger] s[a]).sprache is Some && (
                    #[trigger] s[b]).sprache is Some && s[a].sprache->0@ != s[b].sprache->0@;
                assert(s[a].sprache is Some);
                assert(s[b].sprache is Some);
            }
        }
        false
    }

    /// Die Seite, wie sie gerade aussieht.
    pub fn seite(&self, hinweis: Option<String>, jetzt: &Jetzt) -> (r: Seite)
        requires
            jetzt.zeit.handlich(),
        ensures
            seite_zu(*self, sicht(hinweis), *jetzt, r),
    {
        proof {
            use_type_invariant(self);
        }
        let ghost s = self.liste();
        let mit_sprache = self.mehrsprachig();
        let mut items: Vec<Kachel> = Vec::new();
        let mut i: usize = 0;
        while i < self.eintraege.len()
            invariant
                s == self.liste(),
                self.wf(),
                jetzt.zeit.handlich(),
                mit_sprache == mehrsprachig_in(s),
                i <= s.len(),
                items@.len() == i,
                forall|k: int| 0 <= k < i ==> kachel_zu(#[trigger] items@[k], s[k], mit_sprache, *jetzt),
            decreases s.len() - i,
        {
            let e = &self.eintraege[i];
            proof {
                assert(gut(s[i as int], self.naechste_nummer()));
                handlich_ist_rechenbar(e.uhrzeit, jetzt.zeit);
            }
            let sekunden = if jetzt.nanos >= e.empfangen {
                (jetzt.nanos - e.empfangen) / 1_000_000_000
            } else {
                0
            };
            // Zeichen statt Wörter: An jedem Eintrag stünde sonst dreimal
            // dasselbe Wortpaar. Was sie tun, sagt der Text beim
            // Darüberfahren — `label` ist dafür Pflicht.
            let mut actions: Vec<Knopf> = Vec::new();
            actions.push(knopf("copy", "In die Zwischenablage", Some("copy"), false));
            actions.push(
                knopf(
                    "pin",
                    if e.angeheftet { "Nicht mehr anheften" } else { "Anheften" },
                    Some("check"),
                    false,
                ),
            );
            actions.push(knopf("delete", "Diesen Satz vergessen", Some("delete"), false));
            let kachel = Kachel {
                id: dezimal_text(e.nummer),
                title: wann(sekunden, e.uhrzeit, jetzt.zeit),
                text: e.text.clone(),
                meta: meta(e, mit_sprache),
                actions,
            };
            items.push(kachel);
            i = i + 1;
        }

        // Über einer leeren Liste stünde sonst ein Satz über Sätze, die es
        // nicht gibt.
        let note = match hinweis {
            Some(h) => Some(h),
            None => if self.eintraege.len() > 0 {
                Some(
                    String::from_str(
                        "Diese Sätze liegen im Arbeitsspeicher. Wird das Add-on ausgeschaltet, sind sie weg.",
                    ),
                )
            } else {
                None
            },
        };

        // Jeder Knopf erscheint nur, wenn er etwas zu tun hätte. Und hier
        // ohne `icon`: Ein einzelnes Zeichen unter der Liste sagt niemandem,
        // was es kopiert.
        let mut frei_da = false;
        let mut k: usize = 0;
        while k < self.eintraege.len()
            invariant
                s == self.liste(),
                k <= s.len(),
                frei_da == exists|j: int| 0 <= j < k && !(#[trigger] s[j]).angeheftet,
            decreases s.len() - k,
        {
            if !self.eintraege[k].angeheftet {
                frei_da = true;
            }
            k = k + 1;
        }
        proof {
            lemma_knoepfe_verschieden();
        }
        let mut actions: Vec<Knopf> = Vec::new();
        if self.eintraege.len() > 0 {
            actions.push(knopf("copy-all", "Alles kopieren", None, false));
        }
        if self.zurueckgelegt.len() > 0 {
            actions.push(knopf("undo", "Zurücknehmen", None, false));
        }
        if frei_da {
            actions.push(knopf("clear", "Alles vergessen", None, true));
        }
        let seite = Seite { items, note, actions };
        assert(seite_zu(*self, sicht(hinweis), *jetzt, seite)) by {
            let ids = seitenknoepfe(*self);
            assert(seite.actions@.len() == ids.len());
        }
        seite
    }

    /// Prüft `behandelbar`.
    pub fn kann_behandeln(&self, ereignis: &str, nachricht: &Nachricht, jetzt: &Jetzt) -> (r: bool)
        ensures
            r == behandelbar(*self, ereignis@, *nachricht, *jetzt),
    {
        if !jetzt.zeit.ist_handlich() {
            return false;
        }
        if !gleich(ereignis, "transcript.final") {
            return true;
        }
        match &nachricht.text {
            Some(t) => ist_nur_leerraum(t.as_str()) || self.kann_aufnehmen(t.as_str()),
            None => true,
        }
    }

    /// Behandelt ein Ereignis.
    ///
    /// Soll dabei etwas in die Zwischenablage, kommt erst das als Schritt
    /// zurück; die Antwort gibt danach [`Verlauf::nach_dem_kopieren`].
    pub fn behandle(&mut self, ereignis: &str, nachricht: &Nachricht, jetzt: &Jetzt) -> (r: Schritt)
        requires
            behandelbar(*old(self), ereignis@, *nachricht, *jetzt),
        ensures
            behandlung(*old(self), *final(self), ereignis@, *nachricht, *jetzt, r),
    {
        proof {
            lemma_ereignisse_verschieden();
        }
        let hoechstens = anzahl(
            match &nachricht.anzahl {
                Some(a) => Some(a.as_str()),
                None => None,
            },
        );
        if gleich(ereignis, "transcript.final") {
            if let Some(text) = &nachricht.text {
                if !ist_nur_leerraum(text.as_str()) {
                    let sprache = match &nachricht.sprache {
                        Some(s) => Some(s.as_str()),
                        None => None,
                    };
                    self.aufnehmen(text.as_str(), nachricht.woerter, sprache, jetzt);
                    let ghost mitte = *self;
                    self.kuerzen(hoechstens);
                    // Ein Zurücknehmen, das ein Diktat überdauert, wäre ein
                    // Knopf, an dessen Wirkung sich niemand mehr erinnert.
                    let _verfallen = self.ablage_nehmen();
                    assert(aufgenommen(
                        *old(self),
                        mitte,
                        text@,
                        nachricht.woerter,
                        sicht(nachricht.sprache),
                        *jetzt,
                    ));
                }
            }
            Schritt::Antwort(Ok(None))
        } else if gleich(ereignis, "view.render") {
            // Auch hier gekürzt, nicht nur beim Diktat: Sonst zeigte die Seite
            // nach einer verkleinerten Anzahl weiter den alten Stand.
            self.kuerzen(hoechstens);
            Schritt::Antwort(Ok(Some(self.seite(None, jetzt))))
        } else if gleich(ereignis, "view.action") {
            proof {
                reveal_strlit("");
            }
            let aktion = match &nachricht.aktion {
                Some(a) => a.as_str(),
                None => "",
            };
            let eintrag = match &nachricht.eintrag {
                Some(e) => Some(e.as_str()),
                None => None,
            };
            assert(aktion@ == aktion_von(*nachricht)) by {
                assert(""@.len() == 0);
                assert(""@ =~= Seq::<char>::empty());
            }
            assert(sicht_str(eintrag) == sicht(nachricht.eintrag));
            let ergebnis = self.versuchen(aktion, eintrag);
            let ghost mitte = *self;
            let ghost rv = ergebnis_sicht(ergebnis);
            assert(versuch(*old(self), mitte, aktion_von(*nachricht), sicht(nachricht.eintrag), rv));
            match ergebnis {
                Ok(Some(text)) => Schritt::Kopieren(text),
                Ok(None) => {
                    self.kuerzen(hoechstens);
                    // Die Antwort ist gleich die neue Seite.
                    Schritt::Antwort(Ok(Some(self.seite(None, jetzt))))
                },
                Err(grund) => {
                    self.kuerzen(hoechstens);
                    Schritt::Antwort(Ok(Some(self.seite(Some(grund), jetzt))))
                },
            }
        } else {
            // Ein unbekanntes Ereignis ist kein Fehler. Logsy Voice darf neue
            // einführen, ohne ältere Add-ons unbrauchbar zu machen.
            Schritt::Antwort(Ok(None))
        }
    }

    /// Die Antwort auf einen Klick, der etwas in die Zwischenablage gelegt
    /// hat: gekürzt, dann die Seite, mit dem Grund darüber, wenn das Kopieren
    /// nicht ging.
    ///
    /// Ein `Err` an Logsy Voice zurückzugeben hiesse, die Seite gegen eine
    /// Fehlermeldung einzutauschen — der Nutzer verlöre den Blick auf seine
    /// Sätze, weil das Kopieren eines einzelnen nicht ging.
    pub fn nach_dem_kopieren(&mut self, grund: Option<String>, nachricht: &Nachricht, jetzt: &Jetzt) -> (r: Ergebnis)
        requires
            jetzt.zeit.handlich(),
        ensures
            gekuerzt_mit_seite(*old(self), *final(self), *nachricht, sicht(grund), *jetzt, r),
    {
        let hoechstens = anzahl(
            match &nachricht.anzahl {
                Some(a) => Some(a.as_str()),
                None => None,
            },
        );
        self.kuerzen(hoechstens);
        Ok(Some(self.seite(grund, jetzt)))
    }

    /// Nimmt ein Diktat vorne in die Liste auf.
    ///
    /// Zweimal derselbe Satz ist fast immer ein misslungenes Einfügen, das
    /// gerade wiederholt wurde: Dann zählt der vorderste Eintrag nur ein Mal
    /// mehr und bekommt die neue Zeit.
    pub fn aufnehmen(&mut self, text: &str, woerter: Option<u64>, sprache: Option<&str>, jetzt: &Jetzt)
        requires
            old(self).aufnahme_moeglich(text@),
            jetzt.zeit.handlich(),
        ensures
            aufgenommen(*old(self), *final(self), text@, woerter, sicht_str(sprache), *jetzt),
    {
        proof {
            use_type_invariant(&*self);
        }
        if self.eintraege.len() > 0 && gleich(self.eintraege[0].text.as_str(), text) {
            let ghost alt = self.eintraege@;
            let mut liste = self.liste_nehmen();
            let mut erster = liste.remove(0).unwrap();
            erster.male = erster.male + 1;
            erster.empfangen = jetzt.nanos;
            erster.uhrzeit = jetzt.zeit;
            liste.insert(0, erster);
            assert(liste@ =~= alt.update(0, erster));
            assert forall|n: nat|
                #[trigger] vorkommen(liste@, n) + vorkommen_abgelegt(self.ablage(), n)
                    <= 1 by {
                lemma_vorkommen_ersetzen(alt, 0, erster, n);
                assert(vorkommen(alt, n) + vorkommen_abgelegt(self.ablage(), n) <= 1);
            }
            self.eintraege = liste;
            return;
        }
        let nummer = self.naechste;
        let mut liste = self.liste_nehmen();
        proof {
            use_type_invariant(&*self);
        }
        assert forall|i: int| 0 <= i < self.ablage().len() implies gut(
            #[trigger] self.ablage()[i].1,
            (nummer + 1) as nat,
        ) by {
            assert(gut(self.ablage()[i].1, nummer as nat));
        }
        self.naechste = self.naechste + 1;

        // Ohne Angabe selbst zählen: Ein älteres Logsy Voice schickt das
        // Feld vielleicht noch nicht mit.
        let woerter = match woerter {
            Some(w) => w,
            None => woerter_zaehlen(text),
        };
        let sprache = match sprache {
            Some(s) => Some(String::from_str(s)),
            None => None,
        };
        liste.push_front(
            Eintrag {
                nummer,
                text: String::from_str(text),
                woerter,
                sprache,
                empfangen: jetzt.nanos,
                uhrzeit: jetzt.zeit,
                male: 1,
                angeheftet: false,
            },
        );
        assert(liste@.drop_first() =~= old(self).eintraege@);
        let ghost alt = old(self).eintraege@;
        let ghost neu = liste@[0];
        assert(liste@ =~= alt.insert(0, neu));
        assert forall|n: nat|
            #[trigger] vorkommen(liste@, n) + vorkommen_abgelegt(self.ablage(), n) <= 1 by {
            lemma_vorkommen_einsetzen(alt, 0, neu, n);
            lemma_vorkommen_einzeln(neu, n);
            lemma_vorkommen_frisch(alt, self.ablage(), nummer as nat);
            assert(vorkommen(alt, n) + vorkommen_abgelegt(self.ablage(), n) <= 1);
        }
        self.eintraege = liste;
    }
}

/// Ein gelöschter Satz kommt an seine Stelle zurück: Auf „Diesen Satz
/// vergessen" folgt „Zurücknehmen", und die Liste ist wieder dieselbe.
pub proof fn loeschen_ist_umkehrbar(
    a: Verlauf,
    b: Verlauf,
    c: Verlauf,
    eintrag: Option<Seq<char>>,
    r1: Result<Option<Seq<char>>, Seq<char>>,
    undo_eintrag: Option<Seq<char>>,
    r2: Result<Option<Seq<char>>, Seq<char>>,
)
    requires
        kennung_von(eintrag) matches Some(n) && !fehlt(a.liste(), n),
        versuch(a, b, "delete"@, eintrag, r1),
        versuch(b, c, "undo"@, undo_eintrag, r2),
    ensures
        c.liste() == a.liste(),
        c.ablage() == Seq::<(usize, Eintrag)>::empty(),
{
    lemma_knoepfe_verschieden();
    let s = a.liste();
    let n = kennung_von(eintrag)->0;
    let i = stelle_von(s, n);
    assert(exists|k: int| 0 <= k < s.len() && #[trigger] s[k].nummer == n);
    let k = choose|k: int| 0 <= k < s.len() && #[trigger] s[k].nummer == n;
    lemma_erste_vorhanden(s, n, k);
    let w = choose|w: int| erste_stelle(s, n, w);
    lemma_erste_stelle(s, n, w);
    assert(i == w);
    let z = b.ablage();
    assert(z == seq![(i as usize, s[i])]);
    a.lemma_laenge();
    assert(z.drop_last() =~= Seq::<(usize, Eintrag)>::empty());
    assert(wieder_eingesetzt(s.remove(i), z.drop_last()) == s.remove(i));
    assert(z.last().0 as int == i);
    assert(s.remove(i).insert(i, s[i]) =~= s);
}

/// „Alles vergessen" ist umkehrbar: Nimmt es etwas weg, so bringt das
/// folgende „Zurücknehmen" jeden Satz an seine alte Stelle zurück.
pub proof fn alles_vergessen_ist_umkehrbar(
    a: Verlauf,
    b: Verlauf,
    c: Verlauf,
    eintrag: Option<Seq<char>>,
    r1: Result<Option<Seq<char>>, Seq<char>>,
    undo_eintrag: Option<Seq<char>>,
    r2: Result<Option<Seq<char>>, Seq<char>>,
)
    requires
        exists|i: int| 0 <= i < a.liste().len() && !(#[trigger] a.liste()[i]).angeheftet,
        versuch(a, b, "clear"@, eintrag, r1),
        versuch(b, c, "undo"@, undo_eintrag, r2),
    ensures
        c.liste() == a.liste(),
        c.ablage() == Seq::<(usize, Eintrag)>::empty(),
{
    lemma_knoepfe_verschieden();
    let s = a.liste();
    a.lemma_laenge();
    lemma_vergessene_zahl(s);
    assert(frei(s) > 0);
    assert(b.ablage() == vergessene(s));
    assert(b.liste() == angeheftete(s));
    lemma_wieder_eingesetzt_bis(s, s.len() as int);
    assert(s.take(s.len() as int) =~= s);
    assert(s.skip(s.len() as int) =~= Seq::<Eintrag>::empty());
    assert(s + angeheftete(Seq::<Eintrag>::empty()) =~= s);
}

/// Die Namen der Knöpfe sind verschieden.
pub(crate) proof fn lemma_knoepfe_verschieden()
    ensures
        "copy"@ != "copy-all"@,
        "copy"@ != "pin"@,
        "copy"@ != "delete"@,
        "copy"@ != "clear"@,
        "copy"@ != "undo"@,
        "copy-all"@ != "pin"@,
        "copy-all"@ != "delete"@,
        "copy-all"@ != "clear"@,
        "copy-all"@ != "undo"@,
        "pin"@ != "delete"@,
        "pin"@ != "clear"@,
        "pin"@ != "undo"@,
        "delete"@ != "clear"@,
        "delete"@ != "undo"@,
        "clear"@ != "undo"@,
{
    reveal_strlit("delete");
    reveal_strlit("undo");
    reveal_strlit("copy");
    reveal_strlit("copy-all");
    reveal_strlit("pin");
    reveal_strlit("clear");
    assert("copy"@.len() == 4);
    assert("undo"@.len() == 4);
    assert("copy-all"@.len() == 8);
    assert("pin"@.len() == 3);
    assert("delete"@.len() == 6);
    assert("clear"@.len() == 5);
    assert("copy"@[0] == 'c');
    assert("undo"@[0] == 'u');
}

/// Die Namen der Ereignisse sind verschieden.
pub(crate) proof fn lemma_ereignisse_verschieden()
    ensures
        "transcript.final"@ != "view.render"@,
        "transcript.final"@ != "view.action"@,
        "view.render"@ != "view.action"@,
{
    reveal_strlit("transcript.final");
    reveal_strlit("view.render");
    reveal_strlit("view.action");
    assert("transcript.final"@.len() == 16);
    assert("view.render"@.len() == 11);
    assert("view.action"@.len() == 11);
    assert("view.render"@[5] == 'r');
    assert("view.action"@[5] == 'a');
}

/// Eine Nummer bestimmt ihren Eintrag: Zwei Stellen der Liste mit derselben
/// Nummer sind dieselbe Stelle.
pub proof fn nummer_bestimmt_eintrag(v: Verlauf, i: int, j: int)
    requires
        v.wf(),
        0 <= i < v.liste().len(),
        0 <= j < v.liste().len(),
        v.liste()[i].nummer == v.liste()[j].nummer,
    ensures
        i == j,
{
    let s = v.liste();
    let n = s[i].nummer as nat;
    if i != j {
        let (a, b) = if i < j {
            (i, j)
        } else {
            (j, i)
        };
        lemma_vorkommen_entfernen(s, b, n);
        lemma_vorkommen_einzeln(s[b], n);
        assert(s.remove(b)[a] == s[a]);
        lemma_vorkommen_mindestens(s.remove(b), a);
        assert(vorkommen(s, n) + vorkommen_abgelegt(v.ablage(), n) <= 1);
    }
}

/// Jedes Ereignis bekommt eine Antwort, und keine ist ein Fehler: eine Seite
/// auf `view.render` und `view.action` (bei einem Kopieren erst nach
/// [`Verlauf::nach_dem_kopieren`], das sie immer gibt), sonst keine. Ein
/// unbekanntes Ereignis und ein Diktat ohne Inhalt lassen den Verlauf, wie
/// er war.
pub proof fn jedes_ereignis_wird_beantwortet(
    alt: Verlauf,
    neu: Verlauf,
    ereignis: Seq<char>,
    n: Nachricht,
    jetzt: Jetzt,
    r: Schritt,
)
    requires
        behandlung(alt, neu, ereignis, n, jetzt, r),
    ensures
        match r {
            Schritt::Antwort(e) => e is Ok && (e->Ok_0 is Some <==> (ereignis == "view.render"@
                || ereignis == "view.action"@)),
            Schritt::Kopieren(_) => ereignis == "view.action"@,
        },
        (ereignis != "transcript.final"@ && ereignis != "view.render"@ && ereignis
            != "view.action"@) || (ereignis == "transcript.final"@ && diktat_von(n) is None)
            ==> unveraendert(alt, neu),
{
    lemma_ereignisse_verschieden();
    if ereignis == "view.action"@ {
        let (mitte, rv) = choose|mitte: Verlauf, rv: Result<Option<Seq<char>>, Seq<char>>|
            {
                &&& #[trigger] versuch(alt, mitte, aktion_von(n), sicht(n.eintrag), rv)
                &&& match rv {
                    Ok(Some(t)) => unveraendert(mitte, neu) && (r matches Schritt::Kopieren(k)
                        && k@ == t),
                    _ => (r matches Schritt::Antwort(e) && gekuerzt_mit_seite(
                        mitte,
                        neu,
                        n,
                        hinweis_aus(rv),
                        jetzt,
                        e,
                    )),
                }
            };
        assert(versuch(alt, mitte, aktion_von(n), sicht(n.eintrag), rv));
    }
}

/// Ein gelöschter Satz kommt auch über die Ereignisse an seine Stelle
/// zurück: „Diesen Satz vergessen", dann „Zurücknehmen", und die Liste ist
/// wieder dieselbe, sofern die eingestellte Anzahl die freien Sätze fasst,
/// sodass das Kürzen nach jedem Klick nichts wegnimmt.
pub proof fn loeschen_und_zuruecknehmen_ueber_ereignisse(
    a: Verlauf,
    b: Verlauf,
    c: Verlauf,
    loeschen: Nachricht,
    zurueck: Nachricht,
    jetzt1: Jetzt,
    jetzt2: Jetzt,
    r1: Schritt,
    r2: Schritt,
)
    requires
        aktion_von(loeschen) == "delete"@,
        kennung_von(sicht(loeschen.eintrag)) matches Some(n) && !fehlt(a.liste(), n),
        aktion_von(zurueck) == "undo"@,
        frei(a.liste()) <= anzahl_von(loeschen),
        frei(a.liste()) <= anzahl_von(zurueck),
        behandlung(a, b, "view.action"@, loeschen, jetzt1, r1),
        behandlung(b, c, "view.action"@, zurueck, jetzt2, r2),
    ensures
        c.liste() == a.liste(),
        c.ablage() == Seq::<(usize, Eintrag)>::empty(),
{
    lemma_ereignisse_verschieden();
    lemma_knoepfe_verschieden();
    let s = a.liste();
    let (m1, rv1) = choose|mitte: Verlauf, rv: Result<Option<Seq<char>>, Seq<char>>|
        {
            &&& #[trigger] versuch(a, mitte, aktion_von(loeschen), sicht(loeschen.eintrag), rv)
            &&& match rv {
                Ok(Some(t)) => unveraendert(mitte, b) && (r1 matches Schritt::Kopieren(k) && k@
                    == t),
                _ => (r1 matches Schritt::Antwort(e) && gekuerzt_mit_seite(
                    mitte,
                    b,
                    loeschen,
                    hinweis_aus(rv),
                    jetzt1,
                    e,
                )),
            }
        };
    let n = kennung_von(sicht(loeschen.eintrag))->0;
    let i = stelle_von(s, n);
    assert(exists|k: int| 0 <= k < s.len() && #[trigger] s[k].nummer == n);
    let k = choose|k: int| 0 <= k < s.len() && #[trigger] s[k].nummer == n;
    lemma_erste_vorhanden(s, n, k);
    let w = choose|w: int| erste_stelle(s, n, w);
    lemma_erste_stelle(s, n, w);
    assert(m1.liste() == s.remove(i));
    lemma_frei_entfernen(s, i);
    kuerzen_ohne_ueberhang(s.remove(i), anzahl_von(loeschen));
    assert(b.liste() == m1.liste());
    assert(b.ablage() == m1.ablage());
    let (m2, rv2) = choose|mitte: Verlauf, rv: Result<Option<Seq<char>>, Seq<char>>|
        {
            &&& #[trigger] versuch(b, mitte, aktion_von(zurueck), sicht(zurueck.eintrag), rv)
            &&& match rv {
                Ok(Some(t)) => unveraendert(mitte, c) && (r2 matches Schritt::Kopieren(k) && k@
                    == t),
                _ => (r2 matches Schritt::Antwort(e) && gekuerzt_mit_seite(
                    mitte,
                    c,
                    zurueck,
                    hinweis_aus(rv),
                    jetzt2,
                    e,
                )),
            }
        };
    assert(versuch(m1, m2, "undo"@, sicht(zurueck.eintrag), rv2));
    loeschen_ist_umkehrbar(a, m1, m2, sicht(loeschen.eintrag), rv1, sicht(zurueck.eintrag), rv2);
    kuerzen_ohne_ueberhang(s, anzahl_von(zurueck));
}

/// Ob unter den Knöpfen einer mit dieser Kennung ist.
pub open spec fn hat_knopf(knoepfe: Seq<Knopf>, id: Seq<char>) -> bool {
    exists|k: int| 0 <= k < knoepfe.len() && (#[trigger] knoepfe[k]).id@ == id
}

/// Jeder Knopf unter der Liste erscheint genau dann, wenn er etwas zu tun
/// hätte: „Alles kopieren" bei einer nicht leeren Liste, „Zurücknehmen",
/// wenn etwas zurückgelegt ist, „Alles vergessen", wenn irgendein Satz,
/// gleich an welcher Stelle, nicht angeheftet ist. Mehr Knöpfe gibt es dort
/// nicht, und nur „Alles vergessen" ist als gefährlich markiert.
pub proof fn knoepfe_nur_wenn_sie_etwas_tun(v: Verlauf, hinweis: Option<Seq<char>>, jetzt: Jetzt, seite: Seite)
    requires
        seite_zu(v, hinweis, jetzt, seite),
    ensures
        hat_knopf(seite.actions@, "copy-all"@) <==> v.liste().len() > 0,
        hat_knopf(seite.actions@, "undo"@) <==> v.ablage().len() > 0,
        hat_knopf(seite.actions@, "clear"@) <==> exists|i: int|
            0 <= i < v.liste().len() && !(#[trigger] v.liste()[i]).angeheftet,
        forall|k: int|
            0 <= k < seite.actions@.len() ==> {
                let id = (#[trigger] seite.actions@[k]).id@;
                &&& id == "copy-all"@ || id == "undo"@ || id == "clear"@
                &&& seite.actions@[k].danger <==> id == "clear"@
            },
{
    lemma_knoepfe_verschieden();
    let ids = seitenknoepfe(v);
    let a = seite.actions@;
    assert forall|k: int| 0 <= k < a.len() implies (#[trigger] a[k]).id@ == ids[k] by {
        assert(knopf_ist(a[k], ids[k], seitenknopf_label(ids[k]), None, ids[k] == "clear"@));
    }
    assert forall|k: int| 0 <= k < ids.len() implies ids[k] == "copy-all"@ || ids[k] == "undo"@
        || ids[k] == "clear"@ by {}
    if v.liste().len() > 0 {
        assert(a[0].id@ == "copy-all"@);
    }
    let b = if v.liste().len() > 0 {
        seq!["copy-all"@]
    } else {
        seq![]
    };
    if v.ablage().len() > 0 {
        assert(a[b.len() as int].id@ == "undo"@);
    }
    let c = if v.ablage().len() > 0 {
        b.push("undo"@)
    } else {
        b
    };
    if exists|i: int| 0 <= i < v.liste().len() && !(#[trigger] v.liste()[i]).angeheftet {
        assert(a[c.len() as int].id@ == "clear"@);
    }
    if hat_knopf(a, "clear"@) {
        let k = choose|k: int| 0 <= k < a.len() && (#[trigger] a[k]).id@ == "clear"@;
        assert(ids[k] == "clear"@);
    }
    if hat_knopf(a, "undo"@) {
        let k = choose|k: int| 0 <= k < a.len() && (#[trigger] a[k]).id@ == "undo"@;
        assert(ids[k] == "undo"@);
    }
    if hat_knopf(a, "copy-all"@) {
        let k = choose|k: int| 0 <= k < a.len() && (#[trigger] a[k]).id@ == "copy-all"@;
        assert(ids[k] == "copy-all"@);
    }
}

/// „Alles kopieren" nimmt jeden Satz der Liste, angeheftet oder nicht, in
/// ihrer Reihenfolge, durch eine Leerzeile getrennt: so viele Teile, wie die
/// Liste Einträge hat. Bei leerer Liste gibt es nichts zu kopieren. Der
/// Verlauf bleibt, wie er war.
pub proof fn alles_kopieren_nimmt_jeden_satz(
    alt: Verlauf,
    neu: Verlauf,
    eintrag: Option<Seq<char>>,
    r: Result<Option<Seq<char>>, Seq<char>>,
)
    requires
        versuch(alt, neu, "copy-all"@, eintrag, r),
    ensures
        unveraendert(alt, neu),
        alt.liste().len() == 0 ==> r == Ok::<Option<Seq<char>>, Seq<char>>(None),
        alt.liste().len() > 0 ==> r == Ok::<Option<Seq<char>>, Seq<char>>(
            Some(
                verbunden(
                    Seq::new(alt.liste().len(), |i: int| alt.liste()[i].text@),
                    "\n\n"@,
                ),
            ),
        ),
{
    lemma_knoepfe_verschieden();
    assert(texte(alt.liste()) =~= Seq::new(alt.liste().len(), |i: int| alt.liste()[i].text@));
}

/// Ein Diktat steht danach vorn, mit genau diesem Text und der Zeit, zu der
/// es kam, ob es neu ist oder die Wiederholung des vordersten Satzes. Eine
/// Wiederholung zählt den vordersten Eintrag ein Mal mehr und behält seine
/// Nummer; sonst kommt ein Eintrag mit der nächsten freien Nummer dazu, und
/// alle anderen bleiben dahinter, wie sie waren.
pub proof fn aufnehmen_setzt_die_neue_zeit(
    alt: Verlauf,
    neu: Verlauf,
    text: Seq<char>,
    woerter: Option<u64>,
    sprache: Option<Seq<char>>,
    jetzt: Jetzt,
)
    requires
        alt.aufnahme_moeglich(text),
        aufgenommen(alt, neu, text, woerter, sprache, jetzt),
    ensures
        neu.liste().len() > 0,
        neu.liste()[0].text@ == text,
        neu.liste()[0].empfangen == jetzt.nanos,
        neu.liste()[0].uhrzeit == jetzt.zeit,
        neu.ablage() == alt.ablage(),
        alt.liste().len() > 0 && alt.liste()[0].text@ == text ==> {
            &&& neu.liste().len() == alt.liste().len()
            &&& neu.liste()[0].male == alt.liste()[0].male + 1
            &&& neu.liste()[0].nummer == alt.liste()[0].nummer
            &&& neu.liste().drop_first() == alt.liste().drop_first()
        },
        !(alt.liste().len() > 0 && alt.liste()[0].text@ == text) ==> {
            &&& neu.liste().len() == alt.liste().len() + 1
            &&& neu.liste()[0].male == 1
            &&& neu.liste()[0].nummer == alt.naechste_nummer()
            &&& neu.liste().drop_first() == alt.liste()
        },
{
    if alt.liste().len() > 0 && alt.liste()[0].text@ == text {
        assert(neu.liste().drop_first() =~= alt.liste().drop_first());
    }
}

/// Die Seite zeigt jeden Satz der Liste als eine Kachel, in der Reihenfolge
/// der Liste, mit seinem Text und seiner Nummer als Kennung. Über der Liste
/// steht der Hinweis, wenn einer da ist; sonst steht dort genau dann etwas,
/// wenn die Liste nicht leer ist.
pub proof fn seite_zeigt_jeden_satz(v: Verlauf, hinweis: Option<Seq<char>>, jetzt: Jetzt, seite: Seite)
    requires
        seite_zu(v, hinweis, jetzt, seite),
    ensures
        seite.items@.len() == v.liste().len(),
        forall|i: int|
            0 <= i < v.liste().len() ==> {
                &&& (#[trigger] seite.items@[i]).text@ == v.liste()[i].text@
                &&& seite.items@[i].id@ == dezimal(v.liste()[i].nummer as nat)
                &&& seite.items@[i].actions@.len() == 3
            },
        hinweis matches Some(h) ==> seite.note matches Some(n) && n@ == h,
        hinweis is None ==> (seite.note is Some <==> v.liste().len() > 0),
{
    assert forall|i: int| 0 <= i < v.liste().len() implies {
        &&& (#[trigger] seite.items@[i]).text@ == v.liste()[i].text@
        &&& seite.items@[i].id@ == dezimal(v.liste()[i].nummer as nat)
        &&& seite.items@[i].actions@.len() == 3
    } by {
        assert(kachel_zu(seite.items@[i], v.liste()[i], mehrsprachig_in(v.liste()), jetzt));
    }
}

} // verus!
