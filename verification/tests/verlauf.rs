use verlauf::uhr::Zeitpunkt;
use verlauf::eintrag::{Eintrag, Jetzt};
use verlauf::seite::{wann, Seite};
use verlauf::verlauf::{anzahl, kennung, Ergebnis, Nachricht, Schritt, Verlauf};

const BEMERKUNG: &str =
    "Diese Sätze liegen im Arbeitsspeicher. Wird das Add-on ausgeschaltet, sind sie weg.";

fn jetzt() -> Jetzt {
    Jetzt { nanos: 0, zeit: Zeitpunkt { jahr: 2026, monat: 9, tag: 7, stunde: 18, minute: 0 } }
}

fn leer() -> Nachricht {
    Nachricht { text: None, woerter: None, sprache: None, aktion: None, eintrag: None, anzahl: None }
}

/// Ein Diktat, wie Logsy Voice es schickt.
fn diktat(text: &str) -> Nachricht {
    Nachricht { text: Some(text.to_owned()), woerter: Some(3), ..leer() }
}

fn klick(aktion: &str, eintrag: Option<&str>) -> Nachricht {
    Nachricht { aktion: Some(aktion.to_owned()), eintrag: eintrag.map(str::to_owned), ..leer() }
}

/// Behandelt ein Ereignis; was in die Zwischenablage soll, gilt als kopiert.
fn behandle(verlauf: &mut Verlauf, ereignis: &str, nachricht: &Nachricht) -> Ergebnis {
    assert!(verlauf.kann_behandeln(ereignis, nachricht, &jetzt()));
    match verlauf.behandle(ereignis, nachricht, &jetzt()) {
        Schritt::Antwort(ergebnis) => ergebnis,
        Schritt::Kopieren(_) => verlauf.nach_dem_kopieren(None, nachricht, &jetzt()),
    }
}

fn seite(verlauf: &mut Verlauf, anzahl: &str) -> Seite {
    let frage = Nachricht { anzahl: Some(anzahl.to_owned()), ..leer() };
    behandle(verlauf, "view.render", &frage)
        .expect("view.render antwortet nie mit einem Fehler")
        .expect("view.render liefert immer eine Seite")
}

/// Die Texte der Einträge in der Reihenfolge, in der sie dastehen.
fn texte(seite: &Seite) -> Vec<String> {
    seite.items.iter().map(|e| e.text.clone()).collect()
}

fn knoepfe(seite: &Seite) -> Vec<String> {
    seite.actions.iter().map(|a| a.id.clone()).collect()
}

/// Ein Verlauf mit `n` Diktaten, das jüngste zuerst.
fn gefuellt(n: usize) -> Verlauf {
    let mut verlauf = Verlauf::neu();
    for i in 0..n {
        behandle(&mut verlauf, "transcript.final", &diktat(&format!("Satz {i}"))).expect("ok");
    }
    verlauf
}

fn nummer(verlauf: &Verlauf, stelle: usize) -> String {
    let eintrag: &Eintrag = &verlauf.eintraege()[stelle];
    eintrag.nummer.to_string()
}

#[test]
fn ein_leeres_diktat_wird_nicht_aufgehoben() {
    let mut verlauf = Verlauf::neu();
    behandle(&mut verlauf, "transcript.final", &diktat("   ")).expect("ok");
    assert!(verlauf.eintraege().is_empty());
}

#[test]
fn dasselbe_zweimal_wird_zu_einem_eintrag() {
    let mut verlauf = Verlauf::neu();
    behandle(&mut verlauf, "transcript.final", &diktat("Nochmal")).expect("ok");
    behandle(&mut verlauf, "transcript.final", &diktat("Nochmal")).expect("ok");

    assert_eq!(verlauf.eintraege().len(), 1);
    assert_eq!(verlauf.eintraege()[0].male, 2);
    assert!(seite(&mut verlauf, "20").items[0].meta.contains("2×"));
}

#[test]
fn dazwischen_gesprochenes_trennt_die_beiden() {
    let mut verlauf = Verlauf::neu();
    behandle(&mut verlauf, "transcript.final", &diktat("A")).expect("ok");
    behandle(&mut verlauf, "transcript.final", &diktat("B")).expect("ok");
    behandle(&mut verlauf, "transcript.final", &diktat("A")).expect("ok");

    assert_eq!(texte(&seite(&mut verlauf, "20")), ["A", "B", "A"]);
}

#[test]
fn eine_verkleinerte_anzahl_wirkt_sofort() {
    // Ohne das zeigte die Seite bis zum nächsten Diktat den alten Stand —
    // und das kann Stunden später sein.
    let mut verlauf = gefuellt(7);
    assert_eq!(texte(&seite(&mut verlauf, "5")).len(), 5);
}

#[test]
fn angeheftetes_ueberlebt_die_anzahl() {
    let mut verlauf = gefuellt(3);
    let aeltester = nummer(&verlauf, 2);
    behandle(&mut verlauf, "view.action", &klick("pin", Some(&aeltester))).expect("ok");

    let stand = seite(&mut verlauf, "1");
    assert_eq!(texte(&stand), ["Satz 2", "Satz 0"]);
    assert!(stand.items[1].meta.contains("angeheftet"));
}

#[test]
fn ein_geloeschter_satz_kommt_an_seine_stelle_zurueck() {
    let mut verlauf = gefuellt(3);
    let mittlerer = nummer(&verlauf, 1);

    behandle(&mut verlauf, "view.action", &klick("delete", Some(&mittlerer))).expect("ok");
    assert_eq!(texte(&seite(&mut verlauf, "20")), ["Satz 2", "Satz 0"]);

    behandle(&mut verlauf, "view.action", &klick("undo", None)).expect("ok");
    assert_eq!(texte(&seite(&mut verlauf, "20")), ["Satz 2", "Satz 1", "Satz 0"]);
}

#[test]
fn alles_vergessen_laesst_angeheftetes_stehen_und_ist_umkehrbar() {
    let mut verlauf = gefuellt(3);
    let mittlerer = nummer(&verlauf, 1);
    behandle(&mut verlauf, "view.action", &klick("pin", Some(&mittlerer))).expect("ok");

    behandle(&mut verlauf, "view.action", &klick("clear", None)).expect("ok");
    assert_eq!(texte(&seite(&mut verlauf, "20")), ["Satz 1"]);

    behandle(&mut verlauf, "view.action", &klick("undo", None)).expect("ok");
    assert_eq!(texte(&seite(&mut verlauf, "20")), ["Satz 2", "Satz 1", "Satz 0"]);
}

#[test]
fn zuruecknehmen_verfaellt_mit_dem_naechsten_diktat() {
    let mut verlauf = gefuellt(2);
    behandle(&mut verlauf, "view.action", &klick("clear", None)).expect("ok");
    assert!(knoepfe(&seite(&mut verlauf, "20")).contains(&"undo".to_owned()));

    behandle(&mut verlauf, "transcript.final", &diktat("Weiter")).expect("ok");
    assert!(!knoepfe(&seite(&mut verlauf, "20")).contains(&"undo".to_owned()));
}

#[test]
fn ueber_einer_leeren_liste_steht_keine_bemerkung() {
    let mut verlauf = Verlauf::neu();
    let leer = seite(&mut verlauf, "20");
    assert!(leer.note.is_none());
    assert!(leer.actions.is_empty());

    behandle(&mut verlauf, "transcript.final", &diktat("Etwas")).expect("ok");
    assert!(seite(&mut verlauf, "20").note.is_some());
}

#[test]
fn die_sprache_steht_nur_da_wenn_sie_wechselt() {
    let mut verlauf = Verlauf::neu();
    let mut deutsch = diktat("Guten Tag");
    deutsch.sprache = Some("de".to_owned());
    behandle(&mut verlauf, "transcript.final", &deutsch).expect("ok");

    let nur_deutsch = seite(&mut verlauf, "20");
    assert_eq!(nur_deutsch.items[0].meta, "3 Wörter");

    let mut englisch = diktat("Good morning");
    englisch.sprache = Some("en".to_owned());
    behandle(&mut verlauf, "transcript.final", &englisch).expect("ok");

    let gemischt = seite(&mut verlauf, "20");
    assert_eq!(gemischt.items[0].meta, "3 Wörter · EN");
    assert_eq!(gemischt.items[1].meta, "3 Wörter · DE");
}

#[test]
fn ein_unbekanntes_ereignis_ist_kein_fehler() {
    let mut verlauf = Verlauf::neu();
    let nachricht = leer();
    assert_eq!(verlauf.behandle("was.neues", &nachricht, &jetzt()), Schritt::Antwort(Ok(None)));
}

#[test]
fn ein_unbekannter_knopf_aendert_nichts_und_kostet_die_seite_nicht() {
    let mut verlauf = gefuellt(2);
    let antwort = behandle(&mut verlauf, "view.action", &klick("rakete", None)).expect("ok");

    let stand = antwort.expect("auch darauf kommt eine Seite");
    assert_eq!(texte(&stand), ["Satz 1", "Satz 0"]);
    assert_eq!(stand.note.as_deref(), Some(BEMERKUNG));
}

#[test]
fn ein_klick_auf_einen_verschwundenen_satz_kostet_die_liste_nicht() {
    // Der Grund gehört über die Liste, nicht an ihre Stelle.
    let mut verlauf = gefuellt(2);
    let stand = behandle(&mut verlauf, "view.action", &klick("copy", Some("999")))
        .expect("kein Fehler an Logsy Voice")
        .expect("eine Seite");

    assert_eq!(stand.note.as_deref(), Some("Diesen Satz gibt es nicht mehr."));
    assert_eq!(texte(&stand).len(), 2);
}

#[test]
fn ohne_angabe_gilt_zwanzig() {
    // Keine Einstellungen, gar keine Nachricht, oder eine Zahl statt einer
    // Zeichenkette: Dann trägt die Nachricht keine lesbare Anzahl.
    assert_eq!(anzahl(None), 20);
    assert_eq!(anzahl(None), 20);
    assert_eq!(anzahl(Some("5")), 5);
    assert_eq!(anzahl(None), 20);
}

#[test]
fn eine_aktion_ohne_eintrag_sagt_warum() {
    assert_eq!(kennung(Some("7")), Ok(7));
    assert!(kennung(None).is_err());
    assert!(kennung(Some("keine Zahl")).is_err());
}

#[test]
fn der_abstand_wird_zur_uhrzeit() {
    let heute = Zeitpunkt { jahr: 2026, monat: 9, tag: 7, stunde: 18, minute: 0 };
    let vorhin = Zeitpunkt { jahr: 2026, monat: 9, tag: 7, stunde: 9, minute: 5 };

    assert_eq!(wann(0, vorhin, heute), "gerade eben");
    assert_eq!(wann(59, vorhin, heute), "gerade eben");
    assert_eq!(wann(90, vorhin, heute), "vor einer Minute");
    assert_eq!(wann(300, vorhin, heute), "vor 5 Minuten");
    assert_eq!(wann(3599, vorhin, heute), "vor 59 Minuten");
    // Ab hier sagt der Abstand nichts mehr, also sagt es die Uhr.
    assert_eq!(wann(3600, vorhin, heute), "09:05");
    assert_eq!(wann(9 * 3600, vorhin, heute), "09:05");
}
