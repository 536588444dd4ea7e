use std::sync::mpsc;

use image::DynamicImage;
use ratatui_image::picker::Picker;
use ratatui_image::FontSize;
use wallgrid::encoder::{EncodeRequest, EncodeResult, ImageEncoder};

fn encoder_with_queues() -> (ImageEncoder, mpsc::Receiver<EncodeRequest>, mpsc::Sender<EncodeResult>)
{
    let (req_tx, req_rx) = mpsc::channel::<EncodeRequest>();
    let (res_tx, res_rx) = mpsc::channel::<EncodeResult>();
    (ImageEncoder::new(req_tx, res_rx), req_rx, res_tx)
}

fn sample_image() -> DynamicImage {
    DynamicImage::new_rgb8(4, 4)
}

fn encode(index: usize, width: u16, height: u16) -> EncodeResult {
    let picker = Picker::from_fontsize(FontSize::new(8, 16));
    let protocol = picker.new_resize_protocol(sample_image());
    EncodeResult { index, width, height, protocol }
}

#[test]
fn duplicate_requests_reach_the_worker_once() {
    let (mut enc, req_rx, _res_tx) = encoder_with_queues();
    enc.request_encode(3, sample_image(), 100, 50);
    enc.request_encode(3, sample_image(), 100, 50);
    let jobs: Vec<EncodeRequest> = req_rx.try_iter().collect();
    assert_eq!(jobs.len(), 1);
    assert_eq!(jobs[0].index, 3);
    assert_eq!(jobs[0].width, 100);
    assert_eq!(jobs[0].height, 50);
}

#[test]
fn distinct_sizes_are_distinct_jobs() {
    let (mut enc, req_rx, _res_tx) = encoder_with_queues();
    enc.request_encode(3, sample_image(), 100, 50);
    enc.request_encode(3, sample_image(), 64, 32);
    enc.request_encode(4, sample_image(), 100, 50);
    assert_eq!(req_rx.try_iter().count(), 3);
}

#[test]
fn poll_moves_pending_to_present() {
    let (mut enc, _req_rx, res_tx) = encoder_with_queues();
    enc.request_encode(1, sample_image(), 40, 20);
    assert_eq!(enc.cache_len(), 0);
    assert!(enc.get_cached(1, 40, 20).is_none());
    res_tx.send(encode(1, 40, 20)).unwrap();
    enc.poll_results();
    assert_eq!(enc.cache_len(), 1);
    assert!(enc.get_cached(1, 40, 20).is_some());
}

#[test]
fn completed_key_is_not_requested_again() {
    let (mut enc, req_rx, res_tx) = encoder_with_queues();
    enc.request_encode(1, sample_image(), 40, 20);
    assert_eq!(req_rx.try_iter().count(), 1);
    res_tx.send(encode(1, 40, 20)).unwrap();
    enc.poll_results();
    enc.request_encode(1, sample_image(), 40, 20);
    assert_eq!(req_rx.try_iter().count(), 0);
}

#[test]
fn results_stay_under_their_own_key() {
    let (mut enc, _req_rx, res_tx) = encoder_with_queues();
    enc.request_encode(1, sample_image(), 40, 20);
    enc.request_encode(2, sample_image(), 40, 20);
    res_tx.send(encode(1, 40, 20)).unwrap();
    enc.poll_results();
    assert!(enc.get_cached(1, 40, 20).is_some());
    assert!(enc.get_cached(2, 40, 20).is_none());
    assert!(enc.get_cached(1, 40, 21).is_none());
    assert_eq!(enc.cache_len(), 1);
}

#[test]
fn clear_empties_everything() {
    let (mut enc, req_rx, res_tx) = encoder_with_queues();
    enc.request_encode(1, sample_image(), 40, 20);
    enc.request_encode(2, sample_image(), 40, 20);
    res_tx.send(encode(1, 40, 20)).unwrap();
    res_tx.send(encode(2, 40, 20)).unwrap();
    enc.poll_results();
    assert_eq!(enc.cache_len(), 2);
    enc.clear_cache();
    assert_eq!(enc.cache_len(), 0);
    assert!(enc.get_cached(1, 40, 20).is_none());
    assert!(enc.get_cached(2, 40, 20).is_none());
    // A cleared key can be requested anew, producing a fresh job.
    let _ = req_rx.try_iter().count();
    enc.request_encode(1, sample_image(), 40, 20);
    assert_eq!(req_rx.try_iter().count(), 1);
}

#[test]
fn poll_with_no_results_changes_nothing() {
    let (mut enc, _req_rx, _res_tx) = encoder_with_queues();
    enc.request_encode(7, sample_image(), 10, 5);
    enc.poll_results();
    assert_eq!(enc.cache_len(), 0);
    assert!(enc.get_cached(7, 10, 5).is_none());
}
