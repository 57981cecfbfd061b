# Verlauf

Ein Add-on für Logsy Voice, das die zuletzt diktierten Sätze aufhebt und auf
Klick in die Zwischenablage legt. Die Sätze liegen nur im Arbeitsspeicher.

Die Bibliothek unter `src/` ist mit Verus bewiesen:

| Datei | Inhalt |
|---|---|
| `src/verlauf.rs` | Der Zustand, die Ereignisse und Klicks, und was sie bewirken. |
| `src/eintrag.rs` | Ein Eintrag und was sich über eine Liste von ihnen sagen lässt: kürzen, vergessen, wieder einsetzen, Nummern zählen. |
| `src/seite.rs` | Die Seite: Kacheln, Knöpfe, die zweite Zeile, „vor 5 Minuten". |
| `src/uhr.rs` | Die Tageszahl nach Howard Hinnant und die Beschriftung mit Uhrzeit, „gestern" oder Datum. |
| `src/text.rs` | Zahlen schreiben und lesen, Leerraum, Wörter zählen. |

Bewiesen sind unter anderem: Ein gelöschter Satz kommt mit „Zurücknehmen"
an seine Stelle zurück, ebenso alles, was „Alles vergessen" wegnahm;
Angeheftetes übersteht das Kürzen; keine Nummer steht zweimal; der Tag nach
einem gültigen Datum hat die nächste Tageszahl.

`app/` ist das Programm um die Bibliothek: Es liest die Zeilen von Logsy
Voice, liest die Uhren ab, bedient die Windows-Zwischenablage und schreibt die
Antworten. Es läuft nur unter Windows.
