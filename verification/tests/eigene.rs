use verlauf::uhr::Zeitpunkt;
use verlauf::eintrag::Jetzt;
use verlauf::seite::{meta, wann, Seite};
use verlauf::verlauf::{anzahl, kennung, Nachricht, Schritt, Verlauf};

const BEMERKUNG: &str =
    "Diese Sätze liegen im Arbeitsspeicher. Wird das Add-on ausgeschaltet, sind sie weg.";

fn um(sekunden: u64) -> Jetzt {
    Jetzt { nanos: sekunden * 1_000_000_000, zeit: Zeitpunkt { jahr: 2026, monat: 9, tag: 7, stunde: 18, minute: 0 } }
}

fn leer() -> Nachricht {
    Nachricht { text: None, woerter: None, sprache: None, aktion: None, eintrag: None, anzahl: None }
}

fn diktat(text: &str) -> Nachricht {
    Nachricht { text: Some(text.to_owned()), ..leer() }
}

fn klick(aktion: &str, eintrag: Option<&str>) -> Nachricht {
    Nachricht { aktion: Some(aktion.to_owned()), eintrag: eintrag.map(str::to_owned), ..leer() }
}

fn seite_aus(schritt: Schritt) -> Seite {
    match schritt {
        Schritt::Antwort(Ok(Some(seite))) => seite,
        anders => panic!("keine Seite: {anders:?}"),
    }
}

fn texte(verlauf: &Verlauf) -> Vec<String> {
    verlauf.eintraege().iter().map(|e| e.text.clone()).collect()
}

fn mit(texte: &[&str]) -> Verlauf {
    let mut verlauf = Verlauf::neu();
    for t in texte {
        assert_eq!(verlauf.behandle("transcript.final", &diktat(t), &um(0)), Schritt::Antwort(Ok(None)));
    }
    verlauf
}

#[test]
fn die_kennung_liest_wie_parse() {
    assert_eq!(kennung(Some("+7")), Ok(7));
    assert_eq!(kennung(Some("18446744073709551615")), Ok(u64::MAX));
    assert!(kennung(Some("18446744073709551616")).is_err());
    assert!(kennung(Some("")).is_err());
    assert!(kennung(Some("+")).is_err());
    assert!(kennung(Some("-1")).is_err());
    assert!(kennung(Some(" 1")).is_err());
    assert_eq!(
        kennung(None),
        Err("Der Knopf sagt nicht, welchen Satz er meint.".to_owned())
    );
}

#[test]
fn die_anzahl_liest_wie_parse() {
    assert_eq!(anzahl(Some("0")), 0);
    assert_eq!(anzahl(Some("+3")), 3);
    assert_eq!(anzahl(Some("100")), 100);
    assert_eq!(anzahl(Some("zwanzig")), 20);
    assert_eq!(anzahl(Some("99999999999999999999999")), 20);
}

#[test]
fn die_zweite_zeile_traegt_was_zaehlt() {
    let mut verlauf = Verlauf::neu();
    let mut n = diktat("Eins");
    n.woerter = Some(1);
    n.sprache = Some("straße".to_owned());
    verlauf.behandle("transcript.final", &n, &um(0));
    verlauf.behandle("transcript.final", &n, &um(0));
    verlauf.behandle("transcript.final", &n, &um(0));
    let nummer = verlauf.eintraege()[0].nummer.to_string();
    verlauf.behandle("view.action", &klick("pin", Some(&nummer)), &um(0));

    let e = &verlauf.eintraege()[0];
    assert_eq!(meta(e, false), "1 Wort · 3× · angeheftet");
    assert_eq!(meta(e, true), "1 Wort · 3× · STRASSE · angeheftet");
}

#[test]
fn ohne_angabe_zaehlt_der_verlauf_die_woerter_selbst() {
    let verlauf = mit(&["  zwei\u{3000}Wörter\t ", "ein-Wort", "a b  c"]);
    let woerter: Vec<u64> = verlauf.eintraege().iter().map(|e| e.woerter).collect();
    assert_eq!(woerter, [3, 1, 2]);
}

#[test]
fn unicode_leerraum_ist_kein_diktat() {
    let verlauf = mit(&["\u{2003}\n\u{a0}", "\u{85}", ""]);
    assert!(verlauf.eintraege().is_empty());
    let mut verlauf = Verlauf::neu();
    verlauf.behandle("transcript.final", &leer(), &um(0));
    assert!(verlauf.eintraege().is_empty());
}

#[test]
fn die_nummern_sind_fortlaufend() {
    let verlauf = mit(&["a", "b", "b", "c"]);
    let nummern: Vec<u64> = verlauf.eintraege().iter().map(|e| e.nummer).collect();
    assert_eq!(nummern, [3, 2, 1]);
}

#[test]
fn kopieren_gibt_den_text_an_die_zwischenablage() {
    let mut verlauf = mit(&["erster", "zweiter"]);
    let nummer = verlauf.eintraege()[1].nummer.to_string();
    assert_eq!(
        verlauf.behandle("view.action", &klick("copy", Some(&nummer)), &um(0)),
        Schritt::Kopieren("erster".to_owned())
    );
    assert_eq!(
        verlauf.behandle("view.action", &klick("copy-all", None), &um(0)),
        Schritt::Kopieren("zweiter\n\nerster".to_owned())
    );
    let seite = verlauf
        .nach_dem_kopieren(Some("Die Zwischenablage war nicht zu öffnen".to_owned()), &leer(), &um(0))
        .expect("ok")
        .expect("Seite");
    assert_eq!(seite.note.as_deref(), Some("Die Zwischenablage war nicht zu öffnen"));
    assert_eq!(texte(&verlauf), ["zweiter", "erster"]);
}

#[test]
fn alles_kopieren_ueber_einer_leeren_liste_tut_nichts() {
    let mut verlauf = Verlauf::neu();
    let seite = seite_aus(verlauf.behandle("view.action", &klick("copy-all", None), &um(0)));
    assert!(seite.items.is_empty());
    assert!(seite.note.is_none());
}

#[test]
fn anheften_ist_ein_schalter() {
    let mut verlauf = mit(&["a"]);
    let nummer = verlauf.eintraege()[0].nummer.to_string();
    let seite = seite_aus(verlauf.behandle("view.action", &klick("pin", Some(&nummer)), &um(0)));
    assert_eq!(seite.items[0].actions[1].label, "Nicht mehr anheften");
    assert!(verlauf.eintraege()[0].angeheftet);
    let seite = seite_aus(verlauf.behandle("view.action", &klick("pin", Some(&nummer)), &um(0)));
    assert_eq!(seite.items[0].actions[1].label, "Anheften");
    assert!(!verlauf.eintraege()[0].angeheftet);
}

#[test]
fn ohne_eintrag_steht_der_grund_ueber_der_liste() {
    let mut verlauf = mit(&["a"]);
    for aktion in ["copy", "pin", "delete"] {
        let seite = seite_aus(verlauf.behandle("view.action", &klick(aktion, None), &um(0)));
        assert_eq!(seite.note.as_deref(), Some("Der Knopf sagt nicht, welchen Satz er meint."));
    }
    let seite = seite_aus(verlauf.behandle("view.action", &klick("pin", Some("42")), &um(0)));
    assert_eq!(seite.note.as_deref(), Some("Diesen Satz gibt es nicht mehr."));
}

#[test]
fn einen_verschwundenen_satz_zu_loeschen_ist_kein_fehler() {
    let mut verlauf = mit(&["a", "b"]);
    let seite = seite_aus(verlauf.behandle("view.action", &klick("delete", Some("42")), &um(0)));
    assert_eq!(seite.note.as_deref(), Some(BEMERKUNG));
    assert_eq!(texte(&verlauf), ["b", "a"]);
    assert!(!verlauf.kann_zuruecknehmen());
}

#[test]
fn zuruecknehmen_setzt_ans_ende_was_keine_stelle_mehr_hat() {
    let mut verlauf = mit(&["Satz 0", "Satz 1", "Satz 2"]);
    let aeltester = verlauf.eintraege()[2].nummer.to_string();
    verlauf.behandle("view.action", &klick("delete", Some(&aeltester)), &um(0));
    let kurz = Nachricht { anzahl: Some("1".to_owned()), ..leer() };
    verlauf.behandle("view.render", &kurz, &um(0));
    assert_eq!(texte(&verlauf), ["Satz 2"]);
    verlauf.behandle("view.action", &klick("undo", None), &um(0));
    assert_eq!(texte(&verlauf), ["Satz 2", "Satz 0"]);
}

#[test]
fn alles_vergessen_ohne_freies_laesst_das_zurueckgelegte_stehen() {
    let mut verlauf = mit(&["a", "b"]);
    let b = verlauf.eintraege()[0].nummer.to_string();
    let a = verlauf.eintraege()[1].nummer.to_string();
    verlauf.behandle("view.action", &klick("delete", Some(&a)), &um(0));
    verlauf.behandle("view.action", &klick("pin", Some(&b)), &um(0));
    verlauf.behandle("view.action", &klick("clear", None), &um(0));
    assert_eq!(texte(&verlauf), ["b"]);
    // Es nahm nichts weg; das Zurücknehmen holt den vorher gelöschten Satz.
    verlauf.behandle("view.action", &klick("undo", None), &um(0));
    assert_eq!(texte(&verlauf), ["b", "a"]);
}

#[test]
fn die_knoepfe_unter_der_liste() {
    let mut verlauf = mit(&["a"]);
    let seite = seite_aus(verlauf.behandle("view.render", &leer(), &um(0)));
    let ids: Vec<&str> = seite.actions.iter().map(|k| k.id.as_str()).collect();
    assert_eq!(ids, ["copy-all", "clear"]);
    assert_eq!(seite.actions[0].label, "Alles kopieren");
    assert!(seite.actions[0].icon.is_none());
    assert!(!seite.actions[0].danger);
    assert_eq!(seite.actions[1].label, "Alles vergessen");
    assert!(seite.actions[1].danger);

    let nummer = verlauf.eintraege()[0].nummer.to_string();
    verlauf.behandle("view.action", &klick("pin", Some(&nummer)), &um(0));
    let seite = seite_aus(verlauf.behandle("view.render", &leer(), &um(0)));
    let ids: Vec<&str> = seite.actions.iter().map(|k| k.id.as_str()).collect();
    assert_eq!(ids, ["copy-all"]);

    verlauf.behandle("view.action", &klick("clear", None), &um(0));
    verlauf.behandle("view.action", &klick("pin", Some(&nummer)), &um(0));
    verlauf.behandle("view.action", &klick("delete", Some(&nummer)), &um(0));
    let seite = seite_aus(verlauf.behandle("view.render", &leer(), &um(0)));
    let ids: Vec<&str> = seite.actions.iter().map(|k| k.id.as_str()).collect();
    assert_eq!(ids, ["undo"]);
    assert_eq!(seite.actions[0].label, "Zurücknehmen");
}

#[test]
fn eine_kachel_sagt_was_sie_ist() {
    let mut verlauf = mit(&["Hallo Welt"]);
    let seite = seite_aus(verlauf.behandle("view.render", &leer(), &um(150)));
    let kachel = &seite.items[0];
    assert_eq!(kachel.id, "1");
    assert_eq!(kachel.title, "vor 2 Minuten");
    assert_eq!(kachel.text, "Hallo Welt");
    assert_eq!(kachel.meta, "2 Wörter");
    let ids: Vec<&str> = kachel.actions.iter().map(|k| k.id.as_str()).collect();
    assert_eq!(ids, ["copy", "pin", "delete"]);
    let icons: Vec<Option<&str>> = kachel.actions.iter().map(|k| k.icon.as_deref()).collect();
    assert_eq!(icons, [Some("copy"), Some("check"), Some("delete")]);
    assert_eq!(kachel.actions[0].label, "In die Zwischenablage");
    assert_eq!(kachel.actions[2].label, "Diesen Satz vergessen");
}

#[test]
fn der_abstand_zaehlt_volle_sekunden_der_echten_differenz() {
    // Empfangen nach 0,9 s, gezeigt nach 60,5 s: 59,6 s sind noch keine Minute.
    let mut verlauf = Verlauf::neu();
    let mut empfang = um(0);
    empfang.nanos = 900_000_000;
    verlauf.behandle("transcript.final", &diktat("knapp"), &empfang);
    let mut spaeter = um(60);
    spaeter.nanos = 60_500_000_000;
    let seite = seite_aus(verlauf.behandle("view.render", &leer(), &spaeter));
    assert_eq!(seite.items[0].title, "gerade eben");
    spaeter.nanos = 60_900_000_000;
    let seite = seite_aus(verlauf.behandle("view.render", &leer(), &spaeter));
    assert_eq!(seite.items[0].title, "vor einer Minute");
}

#[test]
fn eine_zurueckgehende_uhr_macht_den_abstand_nicht_negativ() {
    let mut verlauf = Verlauf::neu();
    verlauf.behandle("transcript.final", &diktat("spaeter"), &um(500));
    let seite = seite_aus(verlauf.behandle("view.render", &leer(), &um(100)));
    assert_eq!(seite.items[0].title, "gerade eben");
}

#[test]
fn wann_an_den_grenzen() {
    let heute = Zeitpunkt { jahr: 2026, monat: 9, tag: 7, stunde: 18, minute: 0 };
    let gestern = Zeitpunkt { jahr: 2026, monat: 9, tag: 6, stunde: 23, minute: 1 };
    assert_eq!(wann(60, gestern, heute), "vor einer Minute");
    assert_eq!(wann(119, gestern, heute), "vor einer Minute");
    assert_eq!(wann(120, gestern, heute), "vor 2 Minuten");
    assert_eq!(wann(3600, gestern, heute), "gestern, 23:01");
}

#[test]
fn eine_unhandliche_ortszeit_wird_nicht_behandelt() {
    let verlauf = Verlauf::neu();
    let mut jetzt = um(0);
    jetzt.zeit.jahr = i64::MIN;
    assert!(!verlauf.kann_behandeln("view.render", &leer(), &jetzt));
    assert!(verlauf.kann_behandeln("view.render", &leer(), &um(0)));
}

#[test]
fn zweimal_kuerzen_ist_einmal_auf_die_kleinere_anzahl() {
    let texte_nach = |erst: &str, dann: Option<&str>| {
        let mut verlauf = mit(&["a", "b", "c", "d", "e"]);
        let c = verlauf.eintraege()[2].nummer.to_string();
        verlauf.behandle("view.action", &klick("pin", Some(&c)), &um(0));
        let n = Nachricht { anzahl: Some(erst.to_owned()), ..leer() };
        verlauf.behandle("view.render", &n, &um(0));
        if let Some(dann) = dann {
            let n = Nachricht { anzahl: Some(dann.to_owned()), ..leer() };
            verlauf.behandle("view.render", &n, &um(0));
        }
        texte(&verlauf)
    };
    assert_eq!(texte_nach("3", Some("2")), texte_nach("2", None));
    assert_eq!(texte_nach("2", Some("3")), texte_nach("2", None));
    assert_eq!(texte_nach("2", Some("2")), ["e", "d", "c"]);
    assert_eq!(texte_nach("4", None), ["e", "d", "c", "b", "a"]);
}
