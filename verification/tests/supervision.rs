use tool_runtime::supervision::{
    encode_row, fate_after, ledger_path, parse_row, read_rows, reconcile_children, record_child,
    release_row, verdict, ChildLease, Cleanup, Fate, Finding, LedgerError, LedgerRow, LedgerWrite, LockWait,
    Observed, ReconcileOutcome, Verdict, LOCK_WAIT_TIMEOUT_MS, MAX_LEDGER_BYTES, MAX_LEDGER_ROWS,
};

/// The file of a ledger.
struct File(Option<String>);

impl File {
    fn text(&self) -> Option<&str> {
        self.0.as_deref()
    }

    fn apply(&mut self, change: LedgerWrite) {
        match change {
            LedgerWrite::Unchanged => {}
            LedgerWrite::Remove => self.0 = None,
            LedgerWrite::Replace(text) => self.0 = Some(text),
        }
    }

    fn record(&mut self, pid: u32, token: &str, purpose: &str) -> Result<(), LedgerError> {
        let change = record_child(self.text(), pid, token, purpose)?;
        self.apply(change);
        Ok(())
    }

    fn release(&mut self, pid: u32, token: &str) -> Result<(), LedgerError> {
        let change = release_row(self.text(), pid, token)?;
        self.apply(change);
        Ok(())
    }

    fn lease(&mut self, pid: u32, token: Option<&str>) -> Result<ChildLease, LedgerError> {
        let (lease, change) = tool_runtime::supervision::lease(
            "state",
            self.text(),
            pid,
            token.map(str::to_string),
            "process.run",
        )?;
        self.apply(change);
        Ok(lease)
    }

    fn rows(&self) -> Vec<LedgerRow> {
        match self.text() {
            Some(text) => read_rows(text).unwrap(),
            None => vec![],
        }
    }

    fn pids(&self) -> Vec<u32> {
        self.rows().iter().map(|row| row.pid).collect()
    }

    /// Settles every row by what is observed of its process, and by how
    /// ending it goes.
    fn reconcile(
        &mut self,
        observe: impl Fn(u32) -> Observed,
        mut end: impl FnMut(u32) -> Cleanup,
    ) -> Result<ReconcileOutcome, LedgerError> {
        let Some(text) = self.text() else {
            return Ok(ReconcileOutcome::default());
        };
        let rows = read_rows(text)?;
        let mut findings = vec![];
        for row in &rows {
            let observed = observe(row.pid);
            let cleanup = match verdict(row, &observed) {
                Verdict::Settled(_) => None,
                Verdict::Kill => Some(end(row.pid)),
            };
            findings.push(Finding { observed, cleanup });
        }
        let (outcome, change) = reconcile_children(&rows, &findings)?;
        self.apply(change);
        Ok(outcome)
    }
}

fn running(token: &str) -> Observed {
    Observed::Running(token.to_string())
}

fn never_ended(pid: u32) -> Cleanup {
    panic!("process {pid} must not be touched")
}

#[test]
fn the_ledger_lies_under_the_authority_directory() {
    assert_eq!(ledger_path("/w/state"), "/w/state/authority/host-children.jsonl");
    assert_eq!(ledger_path("/w/state/"), "/w/state/authority/host-children.jsonl");
    assert_eq!(ledger_path(""), "authority/host-children.jsonl");
}

#[test]
fn a_row_is_one_json_line_and_reads_back() {
    let row = LedgerRow {
        pid: 123,
        identity: Some("boot:\"7\"\n".to_string()),
        purpose: "verify.run".to_string(),
    };
    let line = encode_row(&row);
    assert_eq!(
        line,
        "{\"identity\":\"boot:\\\"7\\\"\\n\",\"pid\":123,\"purpose\":\"verify.run\"}"
    );
    let back = parse_row(&line, 1).unwrap();
    assert_eq!(back.pid, 123);
    assert_eq!(back.identity.as_deref(), Some("boot:\"7\"\n"));
    assert_eq!(back.purpose, "verify.run");

    let anonymous = LedgerRow {
        pid: u32::MAX,
        identity: None,
        purpose: String::new(),
    };
    let line = encode_row(&anonymous);
    assert_eq!(line, "{\"identity\":null,\"pid\":4294967295,\"purpose\":\"\"}");
    assert!(parse_row(&line, 1).unwrap().identity.is_none());
}

#[test]
fn a_line_without_a_usable_pid_is_no_row() {
    for line in [
        "{\"pid\": not-json",
        "[1]",
        "{}",
        "{\"pid\":\"1\"}",
        "{\"pid\":-1}",
        "{\"pid\":1.5}",
        "{\"pid\":4294967296}",
    ] {
        assert!(
            matches!(parse_row(line, 7), Err(LedgerError::Corrupt { line: 7 })),
            "{line}"
        );
    }
    let row = parse_row("{\"pid\":4,\"identity\":5,\"purpose\":null,\"more\":[]}", 1).unwrap();
    assert_eq!(row.pid, 4);
    assert!(row.identity.is_none());
    assert_eq!(row.purpose, "unknown");
}

#[test]
fn every_failure_says_what_is_wrong() {
    let io = LedgerError::Io {
        action: "rewrite",
        detail: "disk full".to_string(),
    };
    assert_eq!(io.message(), "supervision ledger rewrite failed: disk full");
    assert_eq!(
        LedgerError::Corrupt { line: 3 }.message(),
        "supervision ledger line 3 is not a valid row"
    );
    assert_eq!(
        LedgerError::OverLimit { rows: 256 }.message(),
        "supervision ledger is full (256 rows); refusing to record another unsupervisable child"
    );
    assert_eq!(
        LedgerError::InvalidPid.message(),
        "pid 0 cannot be a supervised child"
    );
}

#[test]
fn concurrent_records_and_releases_keep_every_unreleased_child() {
    let mut file = File(None);
    for id in 1..=32 {
        file.record(id, "creation", "test").unwrap();
        if id % 2 == 0 {
            file.release(id, "creation").unwrap();
        }
    }
    let mut ids = file.pids();
    ids.sort_unstable();
    assert_eq!(ids, (1..=32).filter(|id| id % 2 != 0).collect::<Vec<u32>>());
}

#[test]
fn oversized_ledgers_fail_before_parsing_or_reconciliation() {
    let large = "x".repeat(MAX_LEDGER_BYTES + 1);
    assert!(matches!(
        read_rows(&large),
        Err(LedgerError::OverLimit { rows: 0 })
    ));
    let rows: Vec<String> = (0..=MAX_LEDGER_ROWS)
        .map(|_| "{\"pid\":123,\"identity\":\"creation\"}".to_string())
        .collect();
    assert!(matches!(
        read_rows(&rows.join("\n")),
        Err(LedgerError::OverLimit { rows: 256 })
    ));
}

#[test]
fn reconcile_kills_a_recorded_leftover_and_clears_the_ledger() {
    let mut file = File(None);
    file.record(41, "boot:41", "verify.run").unwrap();
    let outcome = file
        .reconcile(|_| running("boot:41"), |_| Cleanup::ExitConfirmed)
        .unwrap();
    assert_eq!(outcome.killed, vec![41], "the leftover must be killed");
    assert!(outcome.is_clean());
    assert_eq!(
        file.reconcile(|_| running("boot:41"), never_ended).unwrap(),
        ReconcileOutcome::default()
    );
}

#[test]
fn reconcile_never_signals_a_live_pid_whose_recorded_identity_differs() {
    let mut file = File(None);
    let wrong_token = "00000000-0000-0000-0000-000000000000:999999";
    file.record(41, wrong_token, "verify.run").unwrap();
    let outcome = file.reconcile(|_| running("boot:41"), never_ended).unwrap();
    assert!(outcome.killed.is_empty(), "a wrong token must never kill");
    assert_eq!(
        outcome.cleared_stale,
        vec![41],
        "the row is provably not this live process"
    );
    assert!(outcome.is_clean(), "nothing unresolved remains");
    assert!(file.0.is_none(), "the stale row is gone");
}

#[test]
fn reconcile_keeps_a_legacy_row_without_identity_for_manual_review() {
    let mut file = File(Some("{\"pid\":41,\"purpose\":\"legacy\"}\n".to_string()));
    let outcome = file.reconcile(|_| running("boot:41"), never_ended).unwrap();
    assert!(outcome.killed.is_empty());
    assert_eq!(outcome.unverified, vec![41]);
    assert!(!outcome.is_clean());
    assert_eq!(file.pids(), vec![41]);
}

#[test]
fn reconcile_clears_a_legacy_row_whose_pid_is_dead() {
    let mut file = File(Some("{\"pid\":41,\"purpose\":\"legacy\"}\n".to_string()));
    let outcome = file.reconcile(|_| Observed::Exited, never_ended).unwrap();
    assert_eq!(outcome.cleared_stale, vec![41]);
    assert!(outcome.is_clean());
    assert!(file.0.is_none());
}

#[test]
fn reconcile_errors_on_a_corrupt_ledger_without_killing_anything() {
    let mut file = File(Some(
        "{\"pid\": not-json\n{\"pid\":41,\"identity\":\"boot:41\"}\n".to_string(),
    ));
    let error = file.reconcile(|_| running("boot:41"), never_ended).unwrap_err();
    assert!(error.message().contains("not a valid row"), "{error:?}");
    assert!(matches!(error, LedgerError::Corrupt { line: 1 }));
    assert!(
        matches!(
            file.record(5, "t", "p"),
            Err(LedgerError::Corrupt { line: 1 })
        ),
        "a corrupt ledger is never added to"
    );
}

#[test]
fn reconcile_reports_unconfirmed_when_the_exit_cannot_be_confirmed() {
    let mut file = File(None);
    file.record(41, "boot:41", "verify.run").unwrap();
    let outcome = file
        .reconcile(|_| running("boot:41"), |_| Cleanup::Unconfirmed)
        .unwrap();
    assert!(outcome.killed.is_empty());
    assert_eq!(outcome.unconfirmed, vec![41]);
    assert!(!outcome.is_clean());
    assert_eq!(file.rows().len(), 1, "the row is kept");
}

#[test]
fn protected_process_lookup_failure_keeps_the_ledger_and_blocks_reuse() {
    let mut file = File(None);
    file.record(4, "", "unverifiable").unwrap();
    let lease = ChildLease {
        state_dir: "state".to_string(),
        pid: 4,
        identity_token: String::new(),
        released: false,
    };
    assert!(
        !lease.drop_releases(&Observed::Unknown),
        "Drop cannot equate inaccessible with exited"
    );
    let outcome = file.reconcile(|_| Observed::Unknown, never_ended).unwrap();
    assert_eq!(outcome.unverified, vec![4]);
    assert!(!outcome.is_clean());
    assert!(outcome.killed.is_empty() && outcome.cleared_stale.is_empty());
    assert_eq!(file.rows().len(), 1);
}

#[test]
fn release_is_exact_and_does_not_touch_prefix_pid_numbers() {
    let mut file = File(None);
    file.record(12, "token-a", "process.run").unwrap();
    file.record(123, "token-b", "verify.run").unwrap();
    file.release(12, "token-a").unwrap();
    assert_eq!(file.pids(), vec![123], "only pid 12 may be released");

    let before = file.0.clone();
    file.release(123, "token-a").unwrap();
    file.release(123, "").unwrap();
    assert_eq!(file.0, before, "another identity releases nothing");
    file.record(123, "", "anonymous").unwrap();
    file.release(123, "").unwrap();
    assert_eq!(file.0, before, "an empty token is the row without identity");
}

#[test]
fn lease_is_removed_by_the_confirmed_reaped_receipt() {
    let mut file = File(None);
    let mut lease = file.lease(41, Some("boot:41")).unwrap();
    assert_eq!(file.rows().len(), 1, "recorded on create");
    assert_eq!(file.rows()[0].identity.as_deref(), Some("boot:41"));

    let failed = lease.confirm_reaped(Err(LedgerError::Io {
        action: "rewrite",
        detail: "busy".to_string(),
    }));
    assert!(failed.is_err() && !lease.released, "the lease stays open");

    let change = lease.release(file.text()).unwrap();
    file.apply(change);
    lease.confirm_reaped(Ok(())).unwrap();
    assert!(lease.released);
    assert!(file.0.is_none(), "the confirmed receipt removes the row");
    assert!(matches!(
        lease.release(file.text()),
        Ok(LedgerWrite::Unchanged)
    ));
    assert!(lease.confirm_reaped(Err(LedgerError::InvalidPid)).is_ok());
}

#[test]
fn drop_without_a_receipt_is_conservative() {
    let mut file = File(None);
    let lease = file.lease(41, Some("boot:41")).unwrap();
    assert!(!lease.drop_releases(&running("boot:41")));
    assert!(!lease.drop_releases(&Observed::Unknown));
    assert!(lease.drop_releases(&Observed::Exited));
    assert_eq!(
        file.rows().len(),
        1,
        "a live child's row survives a receipt-less drop"
    );
    let outcome = file.reconcile(|_| Observed::Exited, never_ended).unwrap();
    assert!(outcome.cleared_stale.contains(&41));
    assert!(outcome.is_clean());
    assert!(file.0.is_none(), "resolved rows leave no ledger behind");
}

#[test]
fn a_forgotten_entry_stays_recorded_and_is_reconciled() {
    let mut file = File(None);
    file.record(41, "boot:41", "process.run").unwrap();
    let outcome = file
        .reconcile(|_| running("boot:41"), |_| Cleanup::ExitConfirmed)
        .unwrap();
    assert_eq!(outcome.killed, vec![41], "the unleased entry is reconciled");
}

#[test]
fn record_child_refuses_to_grow_past_the_row_cap() {
    let rows: Vec<String> = (1..=MAX_LEDGER_ROWS)
        .map(|pid| format!("{{\"pid\":{pid},\"identity\":\"dead-token\"}}"))
        .collect();
    let mut file = File(Some(rows.join("\n")));
    let error = file.record(9_999, "boot:1", "verify.run").unwrap_err();
    assert!(matches!(error, LedgerError::OverLimit { rows: 256 }), "{error:?}");
}

#[test]
fn record_child_refuses_to_grow_past_the_byte_cap() {
    let mut file = File(None);
    let purpose = "p".repeat(MAX_LEDGER_BYTES - 40);
    file.record(1, "", &purpose).unwrap();
    let size = file.text().unwrap().len();
    assert!(size <= MAX_LEDGER_BYTES);
    assert!(matches!(
        file.record(2, "", ""),
        Err(LedgerError::OverLimit { rows: 1 })
    ));
    let line = "{\"identity\":null,\"pid\":1,\"purpose\":\"\"}".len();
    let exact = "p".repeat(MAX_LEDGER_BYTES - line);
    assert!(
        matches!(
            File(None).record(1, "", &exact),
            Err(LedgerError::OverLimit { rows: 1 })
        ),
        "the line fits but its line break does not"
    );
    let fits = "p".repeat(MAX_LEDGER_BYTES - line - 1);
    assert!(File(None).record(1, "", &fits).is_ok());
}

#[test]
fn process_zero_is_never_recorded() {
    let mut file = File(Some("broken".to_string()));
    assert!(file.record(0, "t", "p").is_ok());
    assert_eq!(file.text(), Some("broken"));
    assert!(matches!(
        file.lease(0, None),
        Err(LedgerError::InvalidPid)
    ));
}

#[test]
fn every_cleanup_has_its_fate() {
    assert_eq!(fate_after(Cleanup::ExitConfirmed), Fate::Killed);
    assert_eq!(fate_after(Cleanup::AlreadyExited), Fate::Stale);
    assert_eq!(fate_after(Cleanup::IdentityMismatch), Fate::Stale);
    assert_eq!(fate_after(Cleanup::Unconfirmed), Fate::Unconfirmed);
    assert_eq!(fate_after(Cleanup::Failed), Fate::Unverified);
}

#[test]
fn a_mixed_ledger_keeps_exactly_what_is_unresolved() {
    let mut file = File(None);
    for (pid, token) in [(1, "a"), (2, "b"), (3, "c"), (4, ""), (5, "e")] {
        file.record(pid, token, "p").unwrap();
    }
    let outcome = file
        .reconcile(
            |pid| match pid {
                1 => running("a"),
                2 => running("other"),
                3 => running(""),
                4 => running("d"),
                _ => Observed::Exited,
            },
            |_| Cleanup::ExitConfirmed,
        )
        .unwrap();
    assert_eq!(outcome.killed, vec![1]);
    assert_eq!(outcome.cleared_stale, vec![2, 5]);
    assert_eq!(outcome.unverified, vec![3, 4]);
    assert!(outcome.unconfirmed.is_empty());
    assert_eq!(file.pids(), vec![3, 4]);
}

#[test]
fn lock_wait_expires_at_the_total_budget_even_while_held() {
    let mut wait = LockWait::new();
    let mut left = 150;
    let mut pauses = vec![];
    while left > 0 {
        let pause = wait.next_pause(Some(left)).unwrap();
        pauses.push(pause);
        left -= pause;
    }
    assert_eq!(wait.next_pause(None), None, "no time is left");
    assert_eq!(pauses, vec![25, 50, 75]);
    assert_eq!(pauses.iter().sum::<u64>(), 150);
}

#[test]
fn lock_wait_succeeds_when_the_lock_frees_within_budget() {
    let mut wait = LockWait::new();
    let mut left = LOCK_WAIT_TIMEOUT_MS;
    let mut pauses = vec![];
    for _ in 0..6 {
        let pause = wait.next_pause(Some(left)).unwrap();
        pauses.push(pause);
        left -= pause;
    }
    assert_eq!(pauses, vec![25, 50, 100, 200, 250, 250]);
}

#[test]
fn a_row_never_breaks_its_line() {
    let row = LedgerRow {
        pid: 7,
        identity: Some("a\r\nb".to_string()),
        purpose: "one\ntwo\r".to_string(),
    };
    let line = encode_row(&row);
    assert!(!line.contains('\n') && !line.contains('\r'));
    assert_eq!(parse_row(&line, 1).unwrap(), row);
}
